//! The serialization envelope: a versioned little-endian stream holding the
//! vocabulary, the trie layers, the rank arrays and the count lists. The
//! stream stores the plain integers and token bytes; the succinct structures
//! are rebuilt and re-checked when a model is loaded.

use vstd::prelude::*;

use crate::codec::{enc_bytes_list, enc_ints, enc_u64, read_len, write_u64};
use crate::error::LmError;
use crate::rank_array::RankArray;
use crate::trie_array::TrieArray;
use crate::trie_count_lm::TrieCountLm;
use crate::vocabulary::Vocabulary;

verus! {

/// The four magic bytes that open an index stream.
pub open spec fn spec_magic() -> Seq<u8> {
    seq![69u8, 70u8, 84u8, 67u8]
}

/// The envelope version this crate writes.
pub const FORMAT_VERSION: u64 = 1;

/// The frame of one trie layer: its token identifiers and its pointers.
pub open spec fn enc_layer<T: TrieArray>(t: T) -> Seq<u8> {
    enc_u64(t.token_ids().len() as int) + enc_ints(t.token_ids()) + enc_u64(
        t.pointers().len() as int,
    ) + enc_ints(t.pointers())
}

/// The frames of a list of layers.
pub open spec fn enc_layers<T: TrieArray>(ts: Seq<T>) -> Seq<u8>
    decreases ts.len(),
{
    if ts.len() == 0 {
        Seq::<u8>::empty()
    } else {
        enc_layers(ts.drop_last()) + enc_layer(ts.last())
    }
}

/// The frames of a list of integer sequences, each length-prefixed.
pub open spec fn enc_int_lists(ls: Seq<Seq<int>>) -> Seq<u8>
    decreases ls.len(),
{
    if ls.len() == 0 {
        Seq::<u8>::empty()
    } else {
        enc_int_lists(ls.drop_last()) + enc_u64(ls.last().len() as int) + enc_ints(ls.last())
    }
}

impl<T: TrieArray, V: Vocabulary, A: RankArray> TrieCountLm<T, V, A> {
    /// The model's byte image.
    pub open spec fn enc(&self) -> Seq<u8> {
        spec_magic() + enc_u64(FORMAT_VERSION as int) + enc_u64(self.vocab.tokens().len() as int)
            + enc_bytes_list(self.vocab.tokens()) + enc_u64(self.arrays@.len() as int)
            + enc_layers(self.arrays@) + enc_u64(self.count_ranks@.len() as int) + enc_int_lists(
            self.count_ranks@.map_values(|a: A| a.ranks()),
        ) + enc_u64(self.counts@.len() as int) + enc_int_lists(
            self.counts@.map_values(|c: crate::trie_count_lm::CountsList| c.counts()),
        )
    }

    /// Serializes the model into the buffer, appending its byte image.
    pub fn serialize_into(&self, out: &mut Vec<u8>)
        requires
            self.wf(),
        ensures
            final(out)@ == old(out)@ + self.enc(),
    {
        out.push(69);
        out.push(70);
        out.push(84);
        out.push(67);
        proof {
            assert(out@ =~= old(out)@ + spec_magic());
        }
        write_u64(out, FORMAT_VERSION);
        // The vocabulary: each token length-prefixed.
        let ntok = self.vocab.num_tokens();
        write_u64(out, ntok as u64);
        let ghost toks = self.vocab.tokens();
        let mut i: usize = 0;
        let ghost base = out@;
        while i < ntok
            invariant
                0 <= i <= ntok,
                self.wf(),
                ntok as int == toks.len(),
                toks == self.vocab.tokens(),
                out@ == base + enc_bytes_list(toks.subrange(0, i as int)),
            decreases ntok - i,
        {
            let t = self.vocab.token_at(i);
            write_u64(out, t.len() as u64);
            let mut copy = vstd::slice::slice_to_vec(t);
            out.append(&mut copy);
            proof {
                assert(toks.subrange(0, i + 1).drop_last() =~= toks.subrange(0, i as int));
                assert(out@ =~= base + enc_bytes_list(toks.subrange(0, i + 1)));
            }
            i += 1;
        }
        proof {
            assert(toks.subrange(0, ntok as int) =~= toks);
        }
        // The trie layers.
        let na = self.arrays.len();
        write_u64(out, na as u64);
        let mut k: usize = 0;
        let ghost base2 = out@;
        while k < na
            invariant
                0 <= k <= na,
                self.wf(),
                na == self.arrays@.len(),
                out@ == base2 + enc_layers(self.arrays@.subrange(0, k as int)),
            decreases na - k,
        {
            let t = &self.arrays[k];
            serialize_layer(t, out);
            proof {
                assert(self.arrays@.subrange(0, k + 1).drop_last() =~= self.arrays@.subrange(
                    0,
                    k as int,
                ));
                assert(out@ =~= base2 + enc_layers(self.arrays@.subrange(0, k + 1)));
            }
            k += 1;
        }
        proof {
            assert(self.arrays@.subrange(0, na as int) =~= self.arrays@);
        }
        // The rank arrays.
        let ncr = self.count_ranks.len();
        write_u64(out, ncr as u64);
        let ghost rls = self.count_ranks@.map_values(|a: A| a.ranks());
        let mut k: usize = 0;
        let ghost base3 = out@;
        while k < ncr
            invariant
                0 <= k <= ncr,
                self.wf(),
                ncr == self.count_ranks@.len(),
                rls == self.count_ranks@.map_values(|a: A| a.ranks()),
                out@ == base3 + enc_int_lists(rls.subrange(0, k as int)),
            decreases ncr - k,
        {
            let a = &self.count_ranks[k];
            let n = a.len();
            write_u64(out, n as u64);
            let ghost basek = out@;
            let mut i: usize = 0;
            while i < n
                invariant
                    0 <= i <= n,
                    self.wf(),
                    0 <= k < self.count_ranks@.len(),
                    *a == self.count_ranks@[k as int],
                    a.wf(),
                    n as int == a.ranks().len(),
                    out@ == basek + enc_ints(a.ranks().subrange(0, i as int)),
                decreases n - i,
            {
                let v = a.get(i);
                write_u64(out, v as u64);
                proof {
                    assert(a.ranks().subrange(0, i + 1).drop_last() =~= a.ranks().subrange(
                        0,
                        i as int,
                    ));
                    assert(out@ =~= basek + enc_ints(a.ranks().subrange(0, i + 1)));
                }
                i += 1;
            }
            proof {
                assert(a.ranks().subrange(0, n as int) =~= a.ranks());
                assert(rls.subrange(0, k + 1).drop_last() =~= rls.subrange(0, k as int));
                assert(rls[k as int] == a.ranks());
                assert(out@ =~= base3 + enc_int_lists(rls.subrange(0, k + 1)));
            }
            k += 1;
        }
        proof {
            assert(rls.subrange(0, ncr as int) =~= rls);
        }
        // The count lists.
        let ncl = self.counts.len();
        write_u64(out, ncl as u64);
        let ghost cls = self.counts@.map_values(|c: crate::trie_count_lm::CountsList| c.counts());
        let mut k: usize = 0;
        let ghost base4 = out@;
        while k < ncl
            invariant
                0 <= k <= ncl,
                self.wf(),
                ncl == self.counts@.len(),
                cls == self.counts@.map_values(|c: crate::trie_count_lm::CountsList| c.counts()),
                out@ == base4 + enc_int_lists(cls.subrange(0, k as int)),
            decreases ncl - k,
        {
            let c = &self.counts[k];
            let n = c.len();
            write_u64(out, n as u64);
            let ghost basek = out@;
            let mut i: usize = 0;
            while i < n
                invariant
                    0 <= i <= n,
                    self.wf(),
                    0 <= k < self.counts@.len(),
                    *c == self.counts@[k as int],
                    c.wf(),
                    n as int == c.counts().len(),
                    out@ == basek + enc_ints(c.counts().subrange(0, i as int)),
                decreases n - i,
            {
                let v = c.get(i);
                write_u64(out, v as u64);
                proof {
                    assert(c.counts().subrange(0, i + 1).drop_last() =~= c.counts().subrange(
                        0,
                        i as int,
                    ));
                    assert(out@ =~= basek + enc_ints(c.counts().subrange(0, i + 1)));
                }
                i += 1;
            }
            proof {
                assert(c.counts().subrange(0, n as int) =~= c.counts());
                assert(cls.subrange(0, k + 1).drop_last() =~= cls.subrange(0, k as int));
                assert(cls[k as int] == c.counts());
                assert(out@ =~= base4 + enc_int_lists(cls.subrange(0, k + 1)));
            }
            k += 1;
        }
        proof {
            assert(cls.subrange(0, ncl as int) =~= cls);
            assert(out@ =~= old(out)@ + self.enc());
        }
    }

    /// Gets the number of bytes the model serializes into.
    pub fn size_in_bytes(&self) -> (r: usize)
        requires
            self.wf(),
        ensures
            r as int == self.enc().len(),
    {
        let mut out: Vec<u8> = Vec::new();
        self.serialize_into(&mut out);
        out.len()
    }

    /// Loads a model back out of its byte image. The read mirrors the write:
    /// the rebuilt model is re-serialized and held against the input, so a
    /// successful load returns a well-formed model whose byte image is
    /// exactly the given bytes. Anything else is rejected.
    pub fn deserialize_from(bytes: &[u8]) -> (r: Result<Self, LmError>)
        ensures
            r matches Ok(m) ==> m.wf() && m.enc() == bytes@,
            r matches Err(e) ==> e == LmError::Corrupt || e == LmError::TooLarge,
    {
        if bytes.len() < 4 {
            return Err(LmError::Corrupt);
        }
        if *vstd::slice::slice_index_get(bytes, 0) != 69 || *vstd::slice::slice_index_get(bytes, 1)
            != 70 || *vstd::slice::slice_index_get(bytes, 2) != 84 || *vstd::slice::slice_index_get(
            bytes,
            3,
        ) != 67 {
            return Err(LmError::Corrupt);
        }
        let mut pos: usize = 4;
        let (ver, np) = match crate::codec::read_u64(bytes, pos) {
            Some(x) => x,
            None => {
                return Err(LmError::Corrupt);
            },
        };
        pos = np;
        if ver != FORMAT_VERSION {
            return Err(LmError::Corrupt);
        }
        // The vocabulary.
        let (ntok, np) = match read_len(bytes, pos) {
            Some(x) => x,
            None => {
                return Err(LmError::Corrupt);
            },
        };
        pos = np;
        let mut tokens: Vec<Vec<u8>> = Vec::new();
        let mut i: usize = 0;
        while i < ntok
            invariant
                pos <= bytes@.len(),
            decreases ntok - i,
        {
            let (tl, np) = match read_len(bytes, pos) {
                Some(x) => x,
                None => {
                    return Err(LmError::Corrupt);
                },
            };
            pos = np;
            if tl > bytes.len() - pos {
                return Err(LmError::Corrupt);
            }
            let t = vstd::slice::slice_to_vec(vstd::slice::slice_subrange(bytes, pos, pos + tl));
            pos = pos + tl;
            tokens.push(t);
            i += 1;
        }
        let mut grams: Vec<crate::gram::Gram<'_>> = Vec::new();
        let mut i: usize = 0;
        while i < tokens.len()
            invariant
                true,
            decreases tokens@.len() - i,
        {
            grams.push(crate::gram::Gram::new(tokens[i].as_slice()));
            i += 1;
        }
        let vocab = match V::build(&grams) {
            Ok(v) => v,
            Err(_) => {
                return Err(LmError::Corrupt);
            },
        };
        // The trie layers.
        let (na, np) = match read_len(bytes, pos) {
            Some(x) => x,
            None => {
                return Err(LmError::Corrupt);
            },
        };
        pos = np;
        let mut arrays: Vec<T> = Vec::new();
        let mut k: usize = 0;
        while k < na
            invariant
                pos <= bytes@.len(),
                forall|j: int| 0 <= j < arrays@.len() ==> (#[trigger] arrays@[j]).wf(),
            decreases na - k,
        {
            let (ids, np1) = match read_int_vec(bytes, pos) {
                Some(x) => x,
                None => {
                    return Err(LmError::Corrupt);
                },
            };
            pos = np1;
            let (ptrs, np2) = match read_int_vec(bytes, pos) {
                Some(x) => x,
                None => {
                    return Err(LmError::Corrupt);
                },
            };
            pos = np2;
            // An empty layer may store no pointers at all; it rebuilds with
            // the single closing pointer a well-formed layer needs.
            let ptrs = if ids.len() == 0 && ptrs.len() == 0 {
                let mut p: Vec<usize> = Vec::new();
                p.push(0);
                p
            } else {
                ptrs
            };
            if !crate::trie_count_lm::builder::check_layer(&ids, &ptrs) {
                return Err(LmError::Corrupt);
            }
            let t = match T::build(ids, ptrs) {
                Ok(t) => t,
                Err(_) => {
                    return Err(LmError::TooLarge);
                },
            };
            arrays.push(t);
            k += 1;
        }
        // The rank arrays.
        let (ncr, np) = match read_len(bytes, pos) {
            Some(x) => x,
            None => {
                return Err(LmError::Corrupt);
            },
        };
        pos = np;
        let mut count_ranks: Vec<A> = Vec::new();
        let mut k: usize = 0;
        while k < ncr
            invariant
                pos <= bytes@.len(),
                forall|j: int| 0 <= j < count_ranks@.len() ==> (#[trigger] count_ranks@[j]).wf(),
            decreases ncr - k,
        {
            let (ranks, np1) = match read_int_vec(bytes, pos) {
                Some(x) => x,
                None => {
                    return Err(LmError::Corrupt);
                },
            };
            pos = np1;
            let a = match A::build(ranks) {
                Ok(a) => a,
                Err(_) => {
                    return Err(LmError::TooLarge);
                },
            };
            count_ranks.push(a);
            k += 1;
        }
        // The count lists.
        let (ncl, np) = match read_len(bytes, pos) {
            Some(x) => x,
            None => {
                return Err(LmError::Corrupt);
            },
        };
        pos = np;
        let mut counts: Vec<crate::trie_count_lm::CountsList> = Vec::new();
        let mut k: usize = 0;
        while k < ncl
            invariant
                pos <= bytes@.len(),
                forall|j: int| 0 <= j < counts@.len() ==> (#[trigger] counts@[j]).wf(),
            decreases ncl - k,
        {
            let (values, np1) = match read_int_vec(bytes, pos) {
                Some(x) => x,
                None => {
                    return Err(LmError::Corrupt);
                },
            };
            pos = np1;
            if values.len() >= usize::MAX / 64 {
                return Err(LmError::TooLarge);
            }
            counts.push(crate::trie_count_lm::CountsList::build(&values));
            k += 1;
        }
        // Hold the parts against the model invariant before freezing.
        let m = TrieCountLm { vocab, arrays, count_ranks, counts };
        if !check_model(&m) {
            return Err(LmError::Corrupt);
        }
        // The read must mirror the write: the rebuilt model's byte image has
        // to be the input itself.
        let mut echo: Vec<u8> = Vec::new();
        m.serialize_into(&mut echo);
        if !crate::gram::bytes_eq(echo.as_slice(), bytes) {
            return Err(LmError::Corrupt);
        }
        Ok(m)
    }
}

/// Serializes one layer's frame.
fn serialize_layer<T: TrieArray>(t: &T, out: &mut Vec<u8>)
    requires
        t.wf(),
    ensures
        final(out)@ == old(out)@ + enc_layer(*t),
{
    let n = t.num_tokens();
    write_u64(out, n as u64);
    let ghost base = out@;
    let mut i: usize = 0;
    while i < n
        invariant
            0 <= i <= n,
            t.wf(),
            n as int == t.token_ids().len(),
            out@ == base + enc_ints(t.token_ids().subrange(0, i as int)),
        decreases n - i,
    {
        let v = t.token_id(i);
        write_u64(out, v as u64);
        proof {
            assert(t.token_ids().subrange(0, i + 1).drop_last() =~= t.token_ids().subrange(
                0,
                i as int,
            ));
            assert(out@ =~= base + enc_ints(t.token_ids().subrange(0, i + 1)));
        }
        i += 1;
    }
    proof {
        assert(t.token_ids().subrange(0, n as int) =~= t.token_ids());
    }
    let m = t.num_pointers();
    write_u64(out, m as u64);
    let ghost base2 = out@;
    let mut j: usize = 0;
    while j < m
        invariant
            0 <= j <= m,
            t.wf(),
            m as int == t.pointers().len(),
            out@ == base2 + enc_ints(t.pointers().subrange(0, j as int)),
        decreases m - j,
    {
        let v = t.pointer_at(j);
        write_u64(out, v as u64);
        proof {
            assert(t.pointers().subrange(0, j + 1).drop_last() =~= t.pointers().subrange(
                0,
                j as int,
            ));
            assert(out@ =~= base2 + enc_ints(t.pointers().subrange(0, j + 1)));
        }
        j += 1;
    }
    proof {
        assert(t.pointers().subrange(0, m as int) =~= t.pointers());
        assert(out@ =~= old(out)@ + enc_layer(*t));
    }
}

/// Reads one length-prefixed integer list.
fn read_int_vec(bytes: &[u8], pos: usize) -> (r: Option<(Vec<usize>, usize)>)
    ensures
        r matches Some((v, np)) ==> np <= bytes@.len(),
{
    let (n, mut pos) = match read_len(bytes, pos) {
        Some(x) => x,
        None => {
            return None;
        },
    };
    let mut out: Vec<usize> = Vec::new();
    let mut i: usize = 0;
    while i < n
        invariant
            pos <= bytes@.len(),
        decreases n - i,
    {
        let (v, np) = match read_len(bytes, pos) {
            Some(x) => x,
            None => {
                return None;
            },
        };
        pos = np;
        out.push(v);
        i += 1;
    }
    Some((out, pos))
}

/// Holds a freshly assembled model against the invariant the query path
/// needs: matching lengths, ranks below their count lists, and pointer
/// arrays wired to the level above.
fn check_model<T: TrieArray, V: Vocabulary, A: RankArray>(m: &TrieCountLm<T, V, A>) -> (r: bool)
    requires
        m.vocab.wf(),
        forall|k: int| 0 <= k < m.arrays@.len() ==> (#[trigger] m.arrays@[k]).wf(),
        forall|k: int| 0 <= k < m.count_ranks@.len() ==> (#[trigger] m.count_ranks@[k]).wf(),
        forall|k: int| 0 <= k < m.counts@.len() ==> (#[trigger] m.counts@[k]).wf(),
    ensures
        r ==> m.wf(),
{
    let ncr = m.count_ranks.len();
    if ncr == 0 || m.arrays.len() != ncr - 1 || m.counts.len() != ncr || ncr > crate::MAX_ORDER {
        return false;
    }
    if m.count_ranks[0].len() != m.vocab.num_tokens() {
        return false;
    }
    let mut k: usize = 1;
    while k < ncr
        invariant
            1 <= k <= ncr,
            ncr == m.count_ranks@.len(),
            ncr == m.arrays@.len() + 1,
            forall|j: int| 0 <= j < m.arrays@.len() ==> (#[trigger] m.arrays@[j]).wf(),
            forall|j: int| 0 <= j < m.count_ranks@.len() ==> (#[trigger] m.count_ranks@[j]).wf(),
            forall|j: int| 1 <= j < k ==> (#[trigger] m.count_ranks@[j]).ranks().len()
                == m.arrays@[j - 1].token_ids().len(),
        decreases ncr - k,
    {
        if m.count_ranks[k].len() != m.arrays[k - 1].num_tokens() {
            return false;
        }
        k += 1;
    }
    // Every rank points into its order's count list.
    let mut k: usize = 0;
    while k < ncr
        invariant
            0 <= k <= ncr,
            ncr == m.count_ranks@.len() == m.counts@.len(),
            forall|j: int| 0 <= j < m.count_ranks@.len() ==> (#[trigger] m.count_ranks@[j]).wf(),
            forall|j: int| 0 <= j < m.counts@.len() ==> (#[trigger] m.counts@[j]).wf(),
            forall|j: int, i: int|
                0 <= j < k && 0 <= i < m.count_ranks@[j].ranks().len() ==> 0 <= #[trigger]
                m.count_ranks@[j].ranks()[i] < m.counts@[j].counts().len(),
        decreases ncr - k,
    {
        let a = &m.count_ranks[k];
        let bound = m.counts[k].len();
        let n = a.len();
        let mut i: usize = 0;
        while i < n
            invariant
                0 <= i <= n,
                0 <= k < m.count_ranks@.len() == m.counts@.len(),
                *a == m.count_ranks@[k as int],
                a.wf(),
                n as int == a.ranks().len(),
                bound as int == m.counts@[k as int].counts().len(),
                forall|j: int| 0 <= j < i ==> 0 <= #[trigger] a.ranks()[j] < bound as int,
            decreases n - i,
        {
            if a.get(i) >= bound {
                return false;
            }
            i += 1;
        }
        k += 1;
    }
    // Pointer arrays wired to the level above.
    let mut k: usize = 0;
    let na = m.arrays.len();
    while k < na
        invariant
            0 <= k <= na,
            na == m.arrays@.len(),
            ncr == m.count_ranks@.len(),
            na + 1 == ncr,
            m.vocab.wf(),
            forall|j: int| 0 <= j < m.arrays@.len() ==> (#[trigger] m.arrays@[j]).wf(),
            forall|j: int| 0 <= j < k && (#[trigger] m.arrays@[j]).token_ids().len() > 0
                ==> m.arrays@[j].pointers().len() == (if j == 0 {
                m.vocab.tokens().len()
            } else {
                m.arrays@[j - 1].token_ids().len()
            }) + 1,
        decreases na - k,
    {
        let t = &m.arrays[k];
        if t.num_tokens() > 0 {
            let want = if k == 0 {
                m.vocab.num_tokens()
            } else {
                m.arrays[k - 1].num_tokens()
            };
            if want == usize::MAX || t.num_pointers() != want + 1 {
                return false;
            }
        }
        k += 1;
    }
    true
}

} // verus!
