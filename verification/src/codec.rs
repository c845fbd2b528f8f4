//! The index codec: a bit-exact serialization of the ordered
//! `(Locator, Filter)` sequence.  The layout is an entry count, then per
//! entry the three locator strings (length-prefixed UTF-8), then the
//! filter's own serialized bytes as a length-prefixed opaque blob with its
//! item count.  All counts and lengths are little-endian 64-bit.

use vstd::bytes::spec_u64_from_le_bytes;
use vstd::bytes::spec_u64_to_le_bytes;
use vstd::prelude::*;
use vstd::string::StrSliceExecFns;
use vstd::string::StringSliceAdditionalSpecFns;
use vstd::utf8::decode_utf8;
use vstd::utf8::encode_utf8;
use vstd::utf8::valid_utf8;

use crate::filter::Filter;
use crate::index::entry_v;
use crate::index::EntryV;
use crate::index::Index;
use crate::locator::Locator;

verus! {

/// A malformed or truncated artifact: the index cannot be loaded.
#[derive(PartialEq, Eq, Structural, Clone, Copy, Debug)]
pub struct CorruptIndexError;

pub open spec fn enc_u64(x: u64) -> Seq<u8> {
    spec_u64_to_le_bytes(x)
}

/// A length-prefixed UTF-8 string.
pub open spec fn enc_str(s: Seq<char>) -> Seq<u8> {
    enc_u64(encode_utf8(s).len() as u64) + encode_utf8(s)
}

/// One entry: the three locator strings, then the filter blob with its
/// item count.
pub open spec fn enc_entry(e: EntryV) -> Seq<u8> {
    enc_str(e.title) + enc_str(e.url) + enc_str(e.breadcrumb) + enc_u64(e.blob.len() as u64)
        + e.blob + enc_u64(e.count as u64)
}

pub open spec fn enc_entries(es: Seq<EntryV>) -> Seq<u8>
    decreases es.len(),
{
    if es.len() == 0 {
        Seq::empty()
    } else {
        enc_entry(es[0]) + enc_entries(es.drop_first())
    }
}

/// The whole artifact: the entry count, then the entries in order.
pub open spec fn encode_index(es: Seq<EntryV>) -> Seq<u8> {
    enc_u64(es.len() as u64) + enc_entries(es)
}

pub open spec fn dec_u64(b: Seq<u8>) -> Option<(u64, Seq<u8>)> {
    if b.len() >= 8 {
        Some((spec_u64_from_le_bytes(b.take(8)), b.skip(8)))
    } else {
        None
    }
}

pub open spec fn dec_str(b: Seq<u8>) -> Option<(Seq<char>, Seq<u8>)> {
    match dec_u64(b) {
        Some((n, r)) => {
            if n <= r.len() && valid_utf8(r.take(n as int)) {
                Some((decode_utf8(r.take(n as int)), r.skip(n as int)))
            } else {
                None
            }
        },
        None => None,
    }
}

pub open spec fn dec_blob(b: Seq<u8>) -> Option<((Seq<u8>, usize), Seq<u8>)> {
    match dec_u64(b) {
        Some((n, r)) => {
            if 4 <= n && n % 4 == 0 && n <= r.len() {
                match dec_u64(r.skip(n as int)) {
                    Some((c, r2)) => {
                        if c <= usize::MAX as u64 {
                            Some(((r.take(n as int), c as usize), r2))
                        } else {
                            None
                        }
                    },
                    None => None,
                }
            } else {
                None
            }
        },
        None => None,
    }
}

pub open spec fn dec_entry(b: Seq<u8>) -> Option<(EntryV, Seq<u8>)> {
    match dec_str(b) {
        Some((title, b1)) => match dec_str(b1) {
            Some((url, b2)) => match dec_str(b2) {
                Some((breadcrumb, b3)) => match dec_blob(b3) {
                    Some(((blob, count), b4)) => Some(
                        (EntryV { title, url, breadcrumb, blob, count }, b4),
                    ),
                    None => None,
                },
                None => None,
            },
            None => None,
        },
        None => None,
    }
}

pub open spec fn dec_entries(b: Seq<u8>, n: nat) -> Option<(Seq<EntryV>, Seq<u8>)>
    decreases n,
{
    if n == 0 {
        Some((Seq::empty(), b))
    } else {
        match dec_entry(b) {
            Some((e, r)) => match dec_entries(r, (n - 1) as nat) {
                Some((es, rest)) => Some((seq![e] + es, rest)),
                None => None,
            },
            None => None,
        }
    }
}

/// The parse of a whole artifact: the declared number of entries, which
/// must consume the bytes exactly.
pub open spec fn decode_index(b: Seq<u8>) -> Option<Seq<EntryV>> {
    match dec_u64(b) {
        Some((n, r)) => match dec_entries(r, n as nat) {
            Some((es, rest)) => {
                if rest.len() == 0 {
                    Some(es)
                } else {
                    None
                }
            },
            None => None,
        },
        None => None,
    }
}

/// What the codec requires of an entry to round-trip: lengths that fit
/// the 64-bit prefixes, and a blob of whole non-empty buckets.
pub open spec fn entry_wf(e: EntryV) -> bool {
    &&& encode_utf8(e.title).len() <= u64::MAX
    &&& encode_utf8(e.url).len() <= u64::MAX
    &&& encode_utf8(e.breadcrumb).len() <= u64::MAX
    &&& 4 <= e.blob.len()
    &&& e.blob.len() % 4 == 0
    &&& e.blob.len() <= u64::MAX
}

pub open spec fn entries_wf(es: Seq<EntryV>) -> bool {
    forall|i: int| 0 <= i < es.len() ==> entry_wf(#[trigger] es[i])
}

/// The length-prefix bounds of one entry, witnessed while it is written.
pub open spec fn entry_lens_ok(e: EntryV) -> bool {
    &&& encode_utf8(e.title).len() <= u64::MAX
    &&& encode_utf8(e.url).len() <= u64::MAX
    &&& encode_utf8(e.breadcrumb).len() <= u64::MAX
    &&& e.blob.len() <= u64::MAX
}

proof fn lemma_dec_u64(x: u64, rest: Seq<u8>)
    ensures
        dec_u64(enc_u64(x) + rest) == Some((x, rest)),
{
    vstd::bytes::lemma_auto_spec_u64_to_from_le_bytes();
    assert((enc_u64(x) + rest).take(8) =~= enc_u64(x));
    assert((enc_u64(x) + rest).skip(8) =~= rest);
}

proof fn lemma_dec_str(s: Seq<char>, rest: Seq<u8>)
    requires
        encode_utf8(s).len() <= u64::MAX,
    ensures
        dec_str(enc_str(s) + rest) == Some((s, rest)),
{
    let sb = encode_utf8(s);
    let n = sb.len() as u64;
    assert(enc_str(s) + rest =~= enc_u64(n) + (sb + rest));
    lemma_dec_u64(n, sb + rest);
    assert((sb + rest).take(n as int) =~= sb);
    assert((sb + rest).skip(n as int) =~= rest);
    vstd::utf8::encode_utf8_valid_utf8(s);
    vstd::utf8::encode_utf8_decode_utf8(s);
}

#[verifier::rlimit(60)]
proof fn lemma_dec_entry(e: EntryV, rest: Seq<u8>)
    requires
        entry_wf(e),
    ensures
        dec_entry(enc_entry(e) + rest) == Some((e, rest)),
{
    let t = enc_str(e.title);
    let u = enc_str(e.url);
    let c = enc_str(e.breadcrumb);
    let bl = enc_u64(e.blob.len() as u64) + e.blob + enc_u64(e.count as u64);
    assert(enc_entry(e) + rest =~= t + (u + (c + (bl + rest))));
    lemma_dec_str(e.title, u + (c + (bl + rest)));
    lemma_dec_str(e.url, c + (bl + rest));
    lemma_dec_str(e.breadcrumb, bl + rest);
    // the blob part
    assert(bl + rest =~= enc_u64(e.blob.len() as u64) + (e.blob + (enc_u64(e.count as u64)
        + rest)));
    lemma_dec_u64(e.blob.len() as u64, e.blob + (enc_u64(e.count as u64) + rest));
    let r = e.blob + (enc_u64(e.count as u64) + rest);
    assert(r.take(e.blob.len() as int) =~= e.blob);
    assert(r.skip(e.blob.len() as int) =~= enc_u64(e.count as u64) + rest);
    lemma_dec_u64(e.count as u64, rest);
    assert(dec_blob(bl + rest) == Some(((e.blob, e.count), rest)));
}

#[verifier::rlimit(100)]
proof fn lemma_dec_entries(es: Seq<EntryV>, rest: Seq<u8>)
    requires
        entries_wf(es),
    ensures
        dec_entries(enc_entries(es) + rest, es.len()) == Some((es, rest)),
    decreases es.len(),
{
    if es.len() == 0 {
        assert(enc_entries(es) + rest =~= rest);
        assert(Seq::<EntryV>::empty() =~= es);
    } else {
        assert(enc_entries(es) + rest =~= enc_entry(es[0]) + (enc_entries(es.drop_first())
            + rest));
        lemma_dec_entry(es[0], enc_entries(es.drop_first()) + rest);
        assert(entries_wf(es.drop_first())) by {
            assert(forall|i: int|
                0 <= i < es.drop_first().len() ==> #[trigger] es.drop_first()[i] == es[i + 1]);
        }
        lemma_dec_entries(es.drop_first(), rest);
        assert(seq![es[0]] + es.drop_first() =~= es);
    }
}

/// Round-trip: decoding an encoded index yields exactly the same entries,
/// so the locators come back in the same order and every filter's blob
/// (and with it its membership behavior) is preserved.
pub proof fn lemma_codec_round_trip(es: Seq<EntryV>)
    requires
        entries_wf(es),
        es.len() <= u64::MAX,
    ensures
        decode_index(encode_index(es)) == Some(es),
{
    lemma_dec_u64(es.len() as u64, enc_entries(es));
    lemma_dec_entries(es, Seq::empty());
    assert(enc_entries(es) + Seq::<u8>::empty() =~= enc_entries(es));
}

proof fn lemma_enc_entries_snoc(es: Seq<EntryV>, m: nat)
    requires
        m < es.len(),
    ensures
        enc_entries(es.take(m as int + 1)) == enc_entries(es.take(m as int)) + enc_entry(es[m as int]),
    decreases m,
{
    if m == 0 {
        let t = es.take(1);
        assert(t.len() == 1);
        assert(t[0] == es[0]);
        assert(t.drop_first() =~= Seq::<EntryV>::empty());
        assert(enc_entries(t.drop_first()) =~= Seq::<u8>::empty());
        assert(enc_entries(t) == enc_entry(t[0]) + enc_entries(t.drop_first()));
        assert(es.take(0) =~= Seq::<EntryV>::empty());
        assert(enc_entries(es.take(0)) =~= Seq::<u8>::empty());
        assert(enc_entries(t) =~= enc_entries(es.take(0)) + enc_entry(es[0]));
    } else {
        lemma_enc_entries_snoc(es.drop_first(), (m - 1) as nat);
        assert(es.take(m as int + 1)[0] == es[0]);
        assert(es.take(m as int + 1).drop_first() =~= es.drop_first().take(m as int));
        assert(es.take(m as int)[0] == es[0]);
        assert(es.take(m as int).drop_first() =~= es.drop_first().take(m as int - 1));
        assert(es.drop_first()[m as int - 1] == es[m as int]);
        assert((enc_entry(es[0]) + enc_entries(es.drop_first().take(m as int - 1))) + enc_entry(
            es[m as int],
        ) =~= enc_entry(es[0]) + (enc_entries(es.drop_first().take(m as int - 1)) + enc_entry(
            es[m as int],
        )));
    }
}

/// Relies on `String::from_utf8`: it succeeds exactly on valid UTF-8 and
/// decodes it, as vstd's `valid_utf8` and `decode_utf8` define.
#[verifier::external_body]
fn string_from_utf8(v: Vec<u8>) -> (r: Option<String>)
    ensures
        match r {
            Some(s) => valid_utf8(v@) && s@ == decode_utf8(v@),
            None => !valid_utf8(v@),
        },
{
    String::from_utf8(v).ok()
}

fn write_u64(out: &mut Vec<u8>, x: u64)
    ensures
        final(out)@ == old(out)@ + enc_u64(x),
{
    let mut b = vstd::bytes::u64_to_le_bytes(x);
    out.append(&mut b);
}

fn write_str(out: &mut Vec<u8>, s: &str)
    ensures
        final(out)@ == old(out)@ + enc_str(s@),
        encode_utf8(s@).len() <= u64::MAX,
{
    let ghost out0 = out@;
    let mut bytes = s.as_bytes_vec();
    let n = bytes.len();
    proof {
        assert(bytes@ == encode_utf8(s@));
        assert(encode_utf8(s@).len() == n);
    }
    write_u64(out, n as u64);
    out.append(&mut bytes);
    proof {
        assert(out@ =~= out0 + enc_str(s@));
    }
}

impl Index {
    /// Serializes the index, exactly as `encode_index` lays it out.  The
    /// written index also meets the codec's round-trip premises: the
    /// entry count fits its prefix, and a well-formed index has
    /// well-formed entries.
    pub fn to_bytes(&self) -> (r: Vec<u8>)
        ensures
            r@ == encode_index(self@),
            self@.len() <= u64::MAX,
            self.wf() ==> entries_wf(self@),
    {
        let ghost esv = self@;
        let mut out: Vec<u8> = Vec::new();
        let n = self.entries.len();
        proof {
            assert(esv.len() == n);
        }
        write_u64(&mut out, n as u64);
        proof {
            assert(esv.take(0) =~= Seq::<EntryV>::empty());
            assert(out@ =~= enc_u64(n as u64) + enc_entries(esv.take(0)));
        }
        let mut i: usize = 0;
        while i < n
            invariant
                n == self.entries@.len(),
                esv == self@,
                esv.len() == n,
                i <= n,
                out@ == enc_u64(n as u64) + enc_entries(esv.take(i as int)),
                forall|j: int| 0 <= j < i ==> entry_lens_ok(#[trigger] esv[j]),
            decreases n - i,
        {
            let ghost out0 = out@;
            let entry = &self.entries[i];
            write_str(&mut out, entry.0.title.as_str());
            write_str(&mut out, entry.0.url.as_str());
            write_str(&mut out, entry.0.breadcrumb.as_str());
            let (mut blob, count) = entry.1.to_blob();
            let bn = blob.len();
            write_u64(&mut out, bn as u64);
            out.append(&mut blob);
            write_u64(&mut out, count as u64);
            proof {
                assert(esv[i as int] == entry_v(self.entries@[i as int]));
                assert(esv[i as int].blob.len() == bn);
                assert(entry_lens_ok(esv[i as int]));
                assert(out@ =~= out0 + enc_entry(esv[i as int]));
                lemma_enc_entries_snoc(esv, i as nat);
                assert(out@ =~= enc_u64(n as u64) + enc_entries(esv.take(i as int + 1)));
            }
            i += 1;
        }
        proof {
            assert(esv.take(n as int) =~= esv);
            assert(esv.len() <= u64::MAX);
            if self.wf() {
                assert forall|j: int| 0 <= j < esv.len() implies entry_wf(#[trigger] esv[j]) by {
                    assert(esv[j] == entry_v(self.entries@[j]));
                    assert(self.entries@[j].1.wf());
                }
            }
        }
        out
    }

    /// Parses a serialized index.  Succeeds exactly when the bytes are a
    /// complete, well-formed artifact; any truncation, length mismatch or
    /// invalid UTF-8 is a `CorruptIndexError`, and nothing is loaded.
    #[verifier::rlimit(100)]
    pub fn from_bytes(bytes: &Vec<u8>) -> (r: Result<Index, CorruptIndexError>)
        ensures
            r matches Ok(ix) ==> ix.wf() && Some(ix@) == decode_index(bytes@),
            r is Err ==> decode_index(bytes@) is None,
    {
        let (n, mut pos) = match read_u64(bytes, 0) {
            Some(p) => p,
            None => {
                proof {
                    assert(bytes@.skip(0) =~= bytes@);
                }
                return Err(CorruptIndexError);
            },
        };
        proof {
            assert(bytes@.skip(0) =~= bytes@);
        }
        let ghost tail0 = bytes@.skip(pos as int);
        let mut ix = Index::new();
        let mut i: u64 = 0;
        proof {
            assert(ix@ =~= Seq::<EntryV>::empty());
            assert forall|es2: Seq<EntryV>| ix@ + es2 =~= es2 by {}
        }
        while i < n
            invariant
                pos <= bytes@.len(),
                i <= n,
                ix.wf(),
                dec_u64(bytes@) == Some((n, tail0)),
                tail0 == bytes@.skip(pos as int) || i > 0,
                dec_entries(tail0, n as nat) == (match dec_entries(
                    bytes@.skip(pos as int),
                    (n - i) as nat,
                ) {
                    Some((es2, rest)) => Some((ix@ + es2, rest)),
                    None => None::<(Seq<EntryV>, Seq<u8>)>,
                }),
            decreases n - i,
        {
            let ghost ix0 = ix@;
            let ghost p0 = pos as int;
            let (title, p1) = match read_str(bytes, pos) {
                Some(p) => p,
                None => {
                    return Err(CorruptIndexError);
                },
            };
            let (url, p2) = match read_str(bytes, p1) {
                Some(p) => p,
                None => {
                    return Err(CorruptIndexError);
                },
            };
            let (crumb, p3) = match read_str(bytes, p2) {
                Some(p) => p,
                None => {
                    return Err(CorruptIndexError);
                },
            };
            let (blob, count, p4) = match read_blob(bytes, p3) {
                Some(p) => p,
                None => {
                    return Err(CorruptIndexError);
                },
            };
            let ghost e = EntryV {
                title: title@,
                url: url@,
                breadcrumb: crumb@,
                blob: blob@,
                count: count,
            };
            proof {
                assert(dec_str(bytes@.skip(p0)) == Some((title@, bytes@.skip(p1 as int))));
                assert(dec_str(bytes@.skip(p1 as int)) == Some((url@, bytes@.skip(p2 as int))));
                assert(dec_str(bytes@.skip(p2 as int)) == Some((crumb@, bytes@.skip(p3 as int))));
                assert(dec_blob(bytes@.skip(p3 as int)) == Some(
                    ((blob@, count as usize), bytes@.skip(p4 as int)),
                ));
                assert(dec_entry(bytes@.skip(p0)) == Some((e, bytes@.skip(p4 as int))));
            }
            let f = Filter::from_blob(blob, count);
            let loc = Locator::new(title, url, crumb);
            let ghost ents0 = ix.entries@;
            ix.entries.push((loc, f));
            pos = p4;
            proof {
                assert(forall|j: int| 0 <= j < ents0.len() ==> ix.entries@[j] == #[trigger] ents0[
                    j
                ]);
                assert(entry_v(ix.entries@.last()) =~= e);
                assert(ix@ =~= ix0.push(e));
                assert forall|es2: Seq<EntryV>| ix0 + (seq![e] + es2) =~= ix0.push(e) + es2 by {}
                assert forall|j: int|
                    0 <= j < ix.entries@.len() implies (#[trigger] ix.entries@[j]).1.wf() by {
                    if j < ents0.len() as int {
                        assert(ix.entries@[j] == ents0[j]);
                    }
                }
            }
            i += 1;
        }
        proof {
            assert(dec_entries(bytes@.skip(pos as int), 0) == Some(
                (Seq::<EntryV>::empty(), bytes@.skip(pos as int)),
            ));
            assert(ix@ + Seq::<EntryV>::empty() =~= ix@);
        }
        if pos != bytes.len() {
            proof {
                assert(bytes@.skip(pos as int).len() > 0);
            }
            return Err(CorruptIndexError);
        }
        proof {
            assert(bytes@.skip(pos as int).len() == 0);
        }
        Ok(ix)
    }
}

/// Reads one little-endian 64-bit value.
fn read_u64(bytes: &Vec<u8>, pos: usize) -> (r: Option<(u64, usize)>)
    requires
        pos <= bytes@.len(),
    ensures
        match r {
            Some((x, p)) => p <= bytes@.len() && dec_u64(bytes@.skip(pos as int)) == Some(
                (x, bytes@.skip(p as int)),
            ),
            None => dec_u64(bytes@.skip(pos as int)) is None,
        },
{
    if bytes.len() - pos >= 8 {
        let s = vstd::slice::slice_subrange(bytes.as_slice(), pos, pos + 8);
        let x = vstd::bytes::u64_from_le_bytes(s);
        proof {
            assert(bytes@.skip(pos as int).take(8) =~= s@);
            assert(bytes@.skip(pos as int).skip(8) =~= bytes@.skip(pos as int + 8));
        }
        Some((x, pos + 8))
    } else {
        None
    }
}

/// Reads one length-prefixed UTF-8 string.
fn read_str(bytes: &Vec<u8>, pos: usize) -> (r: Option<(String, usize)>)
    requires
        pos <= bytes@.len(),
    ensures
        match r {
            Some((s, p)) => p <= bytes@.len() && dec_str(bytes@.skip(pos as int)) == Some(
                (s@, bytes@.skip(p as int)),
            ),
            None => dec_str(bytes@.skip(pos as int)) is None,
        },
{
    let (n, p1) = match read_u64(bytes, pos) {
        Some(p) => p,
        None => {
            return None;
        },
    };
    if n > (bytes.len() - p1) as u64 {
        proof {
            assert(bytes@.skip(p1 as int).len() == bytes@.len() - p1);
        }
        return None;
    }
    let nn = n as usize;
    let s = vstd::slice::slice_subrange(bytes.as_slice(), p1, p1 + nn);
    let v = vstd::slice::slice_to_vec(s);
    proof {
        assert(v@ =~= bytes@.skip(p1 as int).take(n as int));
    }
    match string_from_utf8(v) {
        Some(st) => {
            proof {
                assert(bytes@.skip(p1 as int).skip(n as int) =~= bytes@.skip(p1 as int + nn));
            }
            Some((st, p1 + nn))
        },
        None => None,
    }
}

/// Reads one length-prefixed filter blob and its item count.
fn read_blob(bytes: &Vec<u8>, pos: usize) -> (r: Option<(Vec<u8>, usize, usize)>)
    requires
        pos <= bytes@.len(),
    ensures
        match r {
            Some((v, c, p)) => p <= bytes@.len() && 4 <= v@.len() && v@.len() % 4 == 0 && dec_blob(
                bytes@.skip(pos as int),
            ) == Some(((v@, c), bytes@.skip(p as int))),
            None => dec_blob(bytes@.skip(pos as int)) is None,
        },
{
    let (n, p1) = match read_u64(bytes, pos) {
        Some(p) => p,
        None => {
            return None;
        },
    };
    if n < 4 || n % 4 != 0 {
        return None;
    }
    if n > (bytes.len() - p1) as u64 {
        proof {
            assert(bytes@.skip(p1 as int).len() == bytes@.len() - p1);
        }
        return None;
    }
    let nn = n as usize;
    let s = vstd::slice::slice_subrange(bytes.as_slice(), p1, p1 + nn);
    let v = vstd::slice::slice_to_vec(s);
    proof {
        assert(v@ =~= bytes@.skip(p1 as int).take(n as int));
        assert(bytes@.skip(p1 as int).skip(n as int) =~= bytes@.skip(p1 as int + nn));
    }
    let (c, p2) = match read_u64(bytes, p1 + nn) {
        Some(p) => p,
        None => {
            return None;
        },
    };
    if c > usize::MAX as u64 {
        return None;
    }
    Some((v, c as usize, p2))
}

} // verus!
