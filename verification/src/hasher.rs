//! The stable hasher: a canonical byte serialization of a container
//! specification, digested with BLAKE3 and rendered as lowercase hex.
//!
//! Equal specifications serialize to equal bytes whatever order their labels
//! were written in, because label entries are kept key-ascending; the digest
//! of the serialization is therefore stable across runs and platforms.

use vstd::prelude::*;
use vstd::string::StrSliceExecFns;
use crate::labels::{LabelMap, lemma_sorted_rep_unique};
use crate::models::ContainerSpec;

verus! {

/// The eight bytes of `n`, least significant first.
pub open spec fn u64_le(n: u64) -> Seq<u8> {
    seq![
        (n & 0xff) as u8,
        ((n >> 8) & 0xff) as u8,
        ((n >> 16) & 0xff) as u8,
        ((n >> 24) & 0xff) as u8,
        ((n >> 32) & 0xff) as u8,
        ((n >> 40) & 0xff) as u8,
        ((n >> 48) & 0xff) as u8,
        ((n >> 56) & 0xff) as u8,
    ]
}

/// The four bytes of `n`, least significant first.
pub open spec fn u32_le(n: u32) -> Seq<u8> {
    seq![
        (n & 0xff) as u8,
        ((n >> 8) & 0xff) as u8,
        ((n >> 16) & 0xff) as u8,
        ((n >> 24) & 0xff) as u8,
    ]
}

/// One character, as the four bytes of its scalar value.
pub open spec fn char_le(c: char) -> Seq<u8> {
    u32_le(c as u32)
}

/// The characters of `s`, each as four bytes.
pub open spec fn chars_bytes(s: Seq<char>) -> Seq<u8>
    decreases s.len(),
{
    if s.len() == 0 {
        Seq::empty()
    } else {
        chars_bytes(s.drop_last()) + char_le(s.last())
    }
}

/// A string: its length, then its characters.
pub open spec fn str_bytes(s: Seq<char>) -> Seq<u8> {
    u64_le(s.len() as u64) + chars_bytes(s)
}

/// Label entries in their stored order: each key, then its value.
pub open spec fn pairs_bytes(es: Seq<(String, String)>) -> Seq<u8>
    decreases es.len(),
{
    if es.len() == 0 {
        Seq::empty()
    } else {
        pairs_bytes(es.drop_last()) + str_bytes(es.last().0@) + str_bytes(es.last().1@)
    }
}

/// The canonical serialization of a container specification: name, service
/// name, image name, then the labels preceded by their count.
pub open spec fn canonical_spec_bytes(s: ContainerSpec) -> Seq<u8> {
    str_bytes(s.name@) + str_bytes(s.service_name@) + str_bytes(s.image_name@) + u64_le(
        s.labels.entry_seq().len() as u64,
    ) + pairs_bytes(s.labels.entry_seq())
}

/// The lowercase hex rendering of the BLAKE3 digest of `bytes`. The digest
/// is a function of the bytes alone; nothing further is assumed of it.
pub uninterp spec fn blake3_hex_of(bytes: Seq<u8>) -> Seq<char>;

/// The digest a container specification is labelled with.
pub open spec fn spec_digest(s: ContainerSpec) -> Seq<char> {
    blake3_hex_of(canonical_spec_bytes(s))
}

/// Relies on `blake3::hash` and `blake3::Hash::to_hex`: the digest depends
/// on the input bytes alone, and `to_hex` renders its 32 bytes as 64
/// lowercase hex characters.
#[verifier::external_body]
fn blake3_hex(bytes: &Vec<u8>) -> (r: String)
    ensures
        r@ == blake3_hex_of(bytes@),
        r@.len() == 64,
{
    blake3::hash(bytes.as_slice()).to_hex().as_str().to_string()
}

fn push_u64_le(out: &mut Vec<u8>, n: u64)
    ensures
        final(out)@ == old(out)@ + u64_le(n),
{
    out.push((n & 0xff) as u8);
    out.push(((n >> 8) & 0xff) as u8);
    out.push(((n >> 16) & 0xff) as u8);
    out.push(((n >> 24) & 0xff) as u8);
    out.push(((n >> 32) & 0xff) as u8);
    out.push(((n >> 40) & 0xff) as u8);
    out.push(((n >> 48) & 0xff) as u8);
    out.push(((n >> 56) & 0xff) as u8);
    proof {
        assert(out@ =~= old(out)@ + u64_le(n));
    }
}

fn push_str_bytes(out: &mut Vec<u8>, s: &str)
    ensures
        final(out)@ == old(out)@ + str_bytes(s@),
{
    let n = s.unicode_len();
    push_u64_le(out, n as u64);
    let ghost mid = out@;
    let mut i: usize = 0;
    while i < n
        invariant
            i <= n,
            n == s@.len(),
            out@ =~= mid + chars_bytes(s@.take(i as int)),
        decreases n - i,
    {
        let u: u32 = s.get_char(i) as u32;
        out.push((u & 0xff) as u8);
        out.push(((u >> 8) & 0xff) as u8);
        out.push(((u >> 16) & 0xff) as u8);
        out.push(((u >> 24) & 0xff) as u8);
        proof {
            assert(s@.take(i + 1).drop_last() =~= s@.take(i as int));
            assert(s@.take(i + 1).last() == s@[i as int]);
            assert(out@ =~= mid + chars_bytes(s@.take(i + 1)));
        }
        i = i + 1;
    }
    proof {
        assert(s@.take(n as int) =~= s@);
        assert(out@ =~= old(out)@ + str_bytes(s@));
    }
}

/// Serializes a container specification into its canonical bytes.
pub fn canonical_bytes(spec: &ContainerSpec) -> (r: Vec<u8>)
    ensures
        r@ == canonical_spec_bytes(*spec),
{
    let mut out: Vec<u8> = Vec::new();
    push_str_bytes(&mut out, spec.name.0.as_str());
    push_str_bytes(&mut out, spec.service_name.as_str());
    push_str_bytes(&mut out, spec.image_name.0.as_str());
    let entries = spec.labels.entries();
    let n = entries.len();
    push_u64_le(&mut out, n as u64);
    let ghost mid = out@;
    let mut i: usize = 0;
    while i < n
        invariant
            i <= n,
            n == entries@.len(),
            entries@ == spec.labels.entry_seq(),
            out@ =~= mid + pairs_bytes(entries@.take(i as int)),
        decreases n - i,
    {
        push_str_bytes(&mut out, entries[i].0.as_str());
        push_str_bytes(&mut out, entries[i].1.as_str());
        proof {
            assert(entries@.take(i + 1).drop_last() =~= entries@.take(i as int));
            assert(entries@.take(i + 1).last() == entries@[i as int]);
            assert(out@ =~= mid + pairs_bytes(entries@.take(i + 1)));
        }
        i = i + 1;
    }
    proof {
        assert(entries@.take(n as int) =~= entries@);
        assert(out@ =~= canonical_spec_bytes(*spec));
    }
    out
}

/// Digests a container specification: canonical bytes, then BLAKE3, rendered
/// as 64 lowercase hex characters.
pub fn container_spec_digest(spec: &ContainerSpec) -> (r: String)
    ensures
        r@ == spec_digest(*spec),
        r@.len() == 64,
{
    let bytes = canonical_bytes(spec);
    blake3_hex(&bytes)
}

/// Digests container specifications deterministically.
pub trait DigestHasher {
    /// The digest of `spec`, as lowercase hex.
    fn digest_hex(&mut self, spec: &ContainerSpec) -> (r: String)
        ensures
            r@ == spec_digest(*spec),
    ;
}

/// The BLAKE3-backed digest of this library.
pub struct Blake3SpecHasher;

impl DigestHasher for Blake3SpecHasher {
    fn digest_hex(&mut self, spec: &ContainerSpec) -> (r: String) {
        container_spec_digest(spec)
    }
}

/// Serialization reads only the views of the entries.
proof fn lemma_pairs_bytes_congruent(e1: Seq<(String, String)>, e2: Seq<(String, String)>)
    requires
        e1.len() == e2.len(),
        forall|i: int| 0 <= i < e1.len() ==> e1[i].0@ == #[trigger] e2[i].0@ && e1[i].1@ == e2[i].1@,
    ensures
        pairs_bytes(e1) == pairs_bytes(e2),
    decreases e1.len(),
{
    if e1.len() > 0 {
        assert(forall|i: int|
            0 <= i < e1.drop_last().len() ==> #[trigger] e1.drop_last()[i] == e1[i]);
        assert(forall|i: int|
            0 <= i < e2.drop_last().len() ==> #[trigger] e2.drop_last()[i] == e2[i]);
        lemma_pairs_bytes_congruent(e1.drop_last(), e2.drop_last());
        assert(e1.last().0@ == e2.last().0@);
        assert(e1.last().1@ == e2.last().1@);
    }
}

/// The eight bytes of a value determine it.
proof fn lemma_u64_le_inj(a: u64, b: u64)
    requires
        u64_le(a) == u64_le(b),
    ensures
        a == b,
{
    assert((a & 0xff) as u8 == (b & 0xff) as u8) by {
        assert(u64_le(a)[0] == u64_le(b)[0]);
    }
    assert(((a >> 8) & 0xff) as u8 == ((b >> 8) & 0xff) as u8) by {
        assert(u64_le(a)[1] == u64_le(b)[1]);
    }
    assert(((a >> 16) & 0xff) as u8 == ((b >> 16) & 0xff) as u8) by {
        assert(u64_le(a)[2] == u64_le(b)[2]);
    }
    assert(((a >> 24) & 0xff) as u8 == ((b >> 24) & 0xff) as u8) by {
        assert(u64_le(a)[3] == u64_le(b)[3]);
    }
    assert(((a >> 32) & 0xff) as u8 == ((b >> 32) & 0xff) as u8) by {
        assert(u64_le(a)[4] == u64_le(b)[4]);
    }
    assert(((a >> 40) & 0xff) as u8 == ((b >> 40) & 0xff) as u8) by {
        assert(u64_le(a)[5] == u64_le(b)[5]);
    }
    assert(((a >> 48) & 0xff) as u8 == ((b >> 48) & 0xff) as u8) by {
        assert(u64_le(a)[6] == u64_le(b)[6]);
    }
    assert(((a >> 56) & 0xff) as u8 == ((b >> 56) & 0xff) as u8) by {
        assert(u64_le(a)[7] == u64_le(b)[7]);
    }
    assert(a == b) by (bit_vector)
        requires
            (a & 0xff) as u8 == (b & 0xff) as u8,
            ((a >> 8) & 0xff) as u8 == ((b >> 8) & 0xff) as u8,
            ((a >> 16) & 0xff) as u8 == ((b >> 16) & 0xff) as u8,
            ((a >> 24) & 0xff) as u8 == ((b >> 24) & 0xff) as u8,
            ((a >> 32) & 0xff) as u8 == ((b >> 32) & 0xff) as u8,
            ((a >> 40) & 0xff) as u8 == ((b >> 40) & 0xff) as u8,
            ((a >> 48) & 0xff) as u8 == ((b >> 48) & 0xff) as u8,
            ((a >> 56) & 0xff) as u8 == ((b >> 56) & 0xff) as u8,
    ;
}

/// The four bytes of a value determine it.
proof fn lemma_u32_le_inj(a: u32, b: u32)
    requires
        u32_le(a) == u32_le(b),
    ensures
        a == b,
{
    assert((a & 0xff) as u8 == (b & 0xff) as u8) by {
        assert(u32_le(a)[0] == u32_le(b)[0]);
    }
    assert(((a >> 8) & 0xff) as u8 == ((b >> 8) & 0xff) as u8) by {
        assert(u32_le(a)[1] == u32_le(b)[1]);
    }
    assert(((a >> 16) & 0xff) as u8 == ((b >> 16) & 0xff) as u8) by {
        assert(u32_le(a)[2] == u32_le(b)[2]);
    }
    assert(((a >> 24) & 0xff) as u8 == ((b >> 24) & 0xff) as u8) by {
        assert(u32_le(a)[3] == u32_le(b)[3]);
    }
    assert(a == b) by (bit_vector)
        requires
            (a & 0xff) as u8 == (b & 0xff) as u8,
            ((a >> 8) & 0xff) as u8 == ((b >> 8) & 0xff) as u8,
            ((a >> 16) & 0xff) as u8 == ((b >> 16) & 0xff) as u8,
            ((a >> 24) & 0xff) as u8 == ((b >> 24) & 0xff) as u8,
    ;
}

/// The serialized characters have four bytes each.
proof fn lemma_chars_bytes_len(s: Seq<char>)
    ensures
        chars_bytes(s).len() == 4 * s.len(),
    decreases s.len(),
{
    if s.len() > 0 {
        lemma_chars_bytes_len(s.drop_last());
    }
}

/// Equal-length character sequences with equal serializations are equal.
proof fn lemma_chars_bytes_inj(s1: Seq<char>, s2: Seq<char>)
    requires
        s1.len() == s2.len(),
        chars_bytes(s1) == chars_bytes(s2),
    ensures
        s1 == s2,
    decreases s1.len(),
{
    if s1.len() == 0 {
        assert(s1 =~= s2);
    } else {
        lemma_chars_bytes_len(s1.drop_last());
        lemma_chars_bytes_len(s2.drop_last());
        let n = chars_bytes(s1).len() as int;
        assert(chars_bytes(s1.drop_last()) =~= chars_bytes(s1).take(n - 4));
        assert(chars_bytes(s2.drop_last()) =~= chars_bytes(s2).take(n - 4));
        assert(char_le(s1.last()) =~= chars_bytes(s1).skip(n - 4));
        assert(char_le(s2.last()) =~= chars_bytes(s2).skip(n - 4));
        lemma_chars_bytes_inj(s1.drop_last(), s2.drop_last());
        lemma_u32_le_inj(s1.last() as u32, s2.last() as u32);
        crate::text::lemma_char_cast_injective(s1.last(), s2.last());
        assert forall|i: int| 0 <= i < s1.len() implies s1[i] == s2[i] by {
            if i < s1.len() - 1 {
                assert(s1.drop_last()[i] == s1[i]);
                assert(s2.drop_last()[i] == s2[i]);
            }
        }
        assert(s1 =~= s2);
    }
}

/// A length-prefixed string determines itself and what follows it.
proof fn lemma_str_bytes_prefix(s1: Seq<char>, s2: Seq<char>, r1: Seq<u8>, r2: Seq<u8>)
    requires
        s1.len() < 0x1_0000_0000_0000_0000,
        s2.len() < 0x1_0000_0000_0000_0000,
        str_bytes(s1) + r1 == str_bytes(s2) + r2,
    ensures
        s1 == s2,
        r1 == r2,
{
    let t = str_bytes(s1) + r1;
    lemma_chars_bytes_len(s1);
    lemma_chars_bytes_len(s2);
    assert(u64_le(s1.len() as u64) =~= t.take(8));
    assert(u64_le(s2.len() as u64) =~= t.take(8));
    lemma_u64_le_inj(s1.len() as u64, s2.len() as u64);
    assert(s1.len() == s2.len());
    let n = s1.len() as int;
    assert(chars_bytes(s1) =~= t.subrange(8, 8 + 4 * n));
    assert(chars_bytes(s2) =~= t.subrange(8, 8 + 4 * n));
    lemma_chars_bytes_inj(s1, s2);
    assert(r1 =~= t.skip(8 + 4 * n));
    assert(r2 =~= t.skip(8 + 4 * n));
}

/// A count prefix determines itself and what follows it.
proof fn lemma_u64_prefix(a: u64, b: u64, r1: Seq<u8>, r2: Seq<u8>)
    requires
        u64_le(a) + r1 == u64_le(b) + r2,
    ensures
        a == b,
        r1 == r2,
{
    let t = u64_le(a) + r1;
    assert(u64_le(a) =~= t.take(8));
    assert(u64_le(b) =~= t.take(8));
    lemma_u64_le_inj(a, b);
    assert(r1 =~= t.skip(8));
    assert(r2 =~= t.skip(8));
}

/// The serialized label entries, read from the front.
proof fn lemma_pairs_bytes_front(e: Seq<(String, String)>)
    requires
        e.len() > 0,
    ensures
        pairs_bytes(e) == str_bytes(e.first().0@) + str_bytes(e.first().1@) + pairs_bytes(
            e.drop_first(),
        ),
    decreases e.len(),
{
    if e.len() == 1 {
        assert(e.drop_last() =~= Seq::<(String, String)>::empty());
        assert(e.drop_first() =~= Seq::<(String, String)>::empty());
        assert(e.first() == e.last());
        assert(pairs_bytes(e) =~= str_bytes(e.first().0@) + str_bytes(e.first().1@) + pairs_bytes(
            e.drop_first(),
        ));
    } else {
        let p = e.drop_last();
        lemma_pairs_bytes_front(p);
        assert(p.first() == e.first());
        assert(e.drop_first().drop_last() =~= p.drop_first());
        assert(e.drop_first().last() == e.last());
        assert(pairs_bytes(e) =~= str_bytes(e.first().0@) + str_bytes(e.first().1@) + pairs_bytes(
            e.drop_first(),
        ));
    }
}

/// Equal-count serialized label entries determine each entry and what
/// follows them.
proof fn lemma_pairs_bytes_inj(
    e1: Seq<(String, String)>,
    e2: Seq<(String, String)>,
    r1: Seq<u8>,
    r2: Seq<u8>,
)
    requires
        e1.len() == e2.len(),
        forall|i: int|
            0 <= i < e1.len() ==> (#[trigger] e1[i]).0@.len() < 0x1_0000_0000_0000_0000
                && e1[i].1@.len() < 0x1_0000_0000_0000_0000,
        forall|i: int|
            0 <= i < e2.len() ==> (#[trigger] e2[i]).0@.len() < 0x1_0000_0000_0000_0000
                && e2[i].1@.len() < 0x1_0000_0000_0000_0000,
        pairs_bytes(e1) + r1 == pairs_bytes(e2) + r2,
    ensures
        forall|i: int|
            0 <= i < e1.len() ==> (#[trigger] e1[i]).0@ == e2[i].0@ && e1[i].1@ == e2[i].1@,
        r1 == r2,
    decreases e1.len(),
{
    if e1.len() == 0 {
        assert(pairs_bytes(e1) =~= Seq::<u8>::empty());
        assert(pairs_bytes(e2) =~= Seq::<u8>::empty());
        assert(r1 =~= pairs_bytes(e1) + r1);
        assert(r2 =~= pairs_bytes(e2) + r2);
    } else {
        lemma_pairs_bytes_front(e1);
        lemma_pairs_bytes_front(e2);
        assert(str_bytes(e1.first().0@) + (str_bytes(e1.first().1@) + (pairs_bytes(
            e1.drop_first(),
        ) + r1)) =~= pairs_bytes(e1) + r1);
        assert(str_bytes(e2.first().0@) + (str_bytes(e2.first().1@) + (pairs_bytes(
            e2.drop_first(),
        ) + r2)) =~= pairs_bytes(e2) + r2);
        lemma_str_bytes_prefix(
            e1.first().0@,
            e2.first().0@,
            str_bytes(e1.first().1@) + (pairs_bytes(e1.drop_first()) + r1),
            str_bytes(e2.first().1@) + (pairs_bytes(e2.drop_first()) + r2),
        );
        lemma_str_bytes_prefix(
            e1.first().1@,
            e2.first().1@,
            pairs_bytes(e1.drop_first()) + r1,
            pairs_bytes(e2.drop_first()) + r2,
        );
        assert(forall|i: int|
            0 <= i < e1.drop_first().len() ==> #[trigger] e1.drop_first()[i] == e1[i + 1]);
        assert(forall|i: int|
            0 <= i < e2.drop_first().len() ==> #[trigger] e2.drop_first()[i] == e2[i + 1]);
        lemma_pairs_bytes_inj(e1.drop_first(), e2.drop_first(), r1, r2);
        assert forall|i: int|
            0 <= i < e1.len() implies (#[trigger] e1[i]).0@ == e2[i].0@ && e1[i].1@
            == e2[i].1@ by {
            if i > 0 {
                assert(e1.drop_first()[i - 1] == e1[i]);
                assert(e2.drop_first()[i - 1] == e2[i]);
            }
        }
    }
}

/// The canonical serialization is injective: two specifications that
/// serialize to the same bytes agree on their name, service name, image
/// name and every label entry. A digest collision between different
/// specifications is therefore a collision of the digest function itself.
pub proof fn lemma_canonical_bytes_injective(s1: ContainerSpec, s2: ContainerSpec)
    requires
        s1.name@.len() < 0x1_0000_0000_0000_0000,
        s1.service_name@.len() < 0x1_0000_0000_0000_0000,
        s1.image_name@.len() < 0x1_0000_0000_0000_0000,
        s2.name@.len() < 0x1_0000_0000_0000_0000,
        s2.service_name@.len() < 0x1_0000_0000_0000_0000,
        s2.image_name@.len() < 0x1_0000_0000_0000_0000,
        s1.labels.entry_seq().len() < 0x1_0000_0000_0000_0000,
        s2.labels.entry_seq().len() < 0x1_0000_0000_0000_0000,
        forall|i: int|
            0 <= i < s1.labels.entry_seq().len() ==> (#[trigger] s1.labels.entry_seq()[i]).0@.len()
                < 0x1_0000_0000_0000_0000 && s1.labels.entry_seq()[i].1@.len()
                < 0x1_0000_0000_0000_0000,
        forall|i: int|
            0 <= i < s2.labels.entry_seq().len() ==> (#[trigger] s2.labels.entry_seq()[i]).0@.len()
                < 0x1_0000_0000_0000_0000 && s2.labels.entry_seq()[i].1@.len()
                < 0x1_0000_0000_0000_0000,
        canonical_spec_bytes(s1) == canonical_spec_bytes(s2),
    ensures
        s1.name@ == s2.name@,
        s1.service_name@ == s2.service_name@,
        s1.image_name@ == s2.image_name@,
        s1.labels.entry_seq().len() == s2.labels.entry_seq().len(),
        forall|i: int|
            0 <= i < s1.labels.entry_seq().len() ==> (#[trigger] s1.labels.entry_seq()[i]).0@
                == s2.labels.entry_seq()[i].0@ && s1.labels.entry_seq()[i].1@
                == s2.labels.entry_seq()[i].1@,
        s1.labels@ == s2.labels@,
{
    let e1 = s1.labels.entry_seq();
    let e2 = s2.labels.entry_seq();
    let tail1 = u64_le(e1.len() as u64) + (pairs_bytes(e1) + Seq::<u8>::empty());
    let tail2 = u64_le(e2.len() as u64) + (pairs_bytes(e2) + Seq::<u8>::empty());
    assert(str_bytes(s1.name@) + (str_bytes(s1.service_name@) + (str_bytes(s1.image_name@)
        + tail1)) =~= canonical_spec_bytes(s1));
    assert(str_bytes(s2.name@) + (str_bytes(s2.service_name@) + (str_bytes(s2.image_name@)
        + tail2)) =~= canonical_spec_bytes(s2));
    lemma_str_bytes_prefix(
        s1.name@,
        s2.name@,
        str_bytes(s1.service_name@) + (str_bytes(s1.image_name@) + tail1),
        str_bytes(s2.service_name@) + (str_bytes(s2.image_name@) + tail2),
    );
    lemma_str_bytes_prefix(
        s1.service_name@,
        s2.service_name@,
        str_bytes(s1.image_name@) + tail1,
        str_bytes(s2.image_name@) + tail2,
    );
    lemma_str_bytes_prefix(s1.image_name@, s2.image_name@, tail1, tail2);
    lemma_u64_prefix(
        e1.len() as u64,
        e2.len() as u64,
        pairs_bytes(e1) + Seq::<u8>::empty(),
        pairs_bytes(e2) + Seq::<u8>::empty(),
    );
    lemma_pairs_bytes_inj(e1, e2, Seq::<u8>::empty(), Seq::<u8>::empty());
    crate::labels::lemma_map_of_congruent(e1, e2);
}

/// The digest is a function of the specification alone: two well-formed
/// specifications that declare the same name, service, image and label map
/// carry the same digest, however their label maps were built up.
pub proof fn lemma_digest_deterministic(s1: ContainerSpec, s2: ContainerSpec)
    requires
        s1.wf(),
        s2.wf(),
        s1.name@ == s2.name@,
        s1.service_name@ == s2.service_name@,
        s1.image_name@ == s2.image_name@,
        s1.labels@ == s2.labels@,
    ensures
        spec_digest(s1) == spec_digest(s2),
{
    lemma_sorted_rep_unique(s1.labels.entry_seq(), s2.labels.entry_seq());
    lemma_pairs_bytes_congruent(s1.labels.entry_seq(), s2.labels.entry_seq());
}

} // verus!
