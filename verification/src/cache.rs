//! The acquisition and the checker. The first inference over a transcript is the acquisition:
//! every position's per-layer activations (the layer input x, and the roped-and-normed k and v
//! it produced) are kept, stamped with the position's ring address and sealed under the prefix
//! of token ids that produced them.
//!
//! A later turn over a longer transcript is a re-slicing: free exactly when the causal prefix
//! is identical (the seal matches), so every old position's activations are what the full pass
//! would recompute. The seal is sha256 over the token ids (u32 little-endian), in hex.

use sha2::{Digest, Sha256};
use vstd::prelude::*;

use crate::clock::{address_spec, Address, Clock};
use crate::cubfile::{le_seq, utf8_string};

verus! {

// ── the seal ─────────────────────────────────────────────────────────────────

/// The sha256 digest of the bytes.
pub uninterp spec fn sha256_digest(bytes: Seq<u8>) -> Seq<u8>;

/// `Sha256::digest` (sha2): the 32-byte digest of the bytes, named `sha256_digest`. The crate
/// fixes the output size at 32 bytes; what the digest holds is left to the name.
#[verifier::external_body]
fn sha256(bytes: &[u8]) -> (r: Vec<u8>)
    ensures
        r@ == sha256_digest(bytes@),
        r.len() == 32,
{
    Sha256::digest(bytes).to_vec()
}

/// The bytes the seal hashes: each token id as a little-endian u32.
pub open spec fn token_bytes(tokens: Seq<usize>) -> Seq<u8>
    decreases tokens.len(),
{
    if tokens.len() == 0 {
        seq![]
    } else {
        token_bytes(tokens.drop_last()) + le_seq(tokens.last() as u32 as int, 4)
    }
}

/// A nibble as a lowercase hex digit.
pub open spec fn hex_digit(d: int) -> char {
    if d < 10 {
        (48 + d) as char
    } else {
        (87 + d) as char
    }
}

/// Bytes as lowercase hex, two digits each, high nibble first.
pub open spec fn hex_chars(b: Seq<u8>) -> Seq<char>
    decreases b.len(),
{
    if b.len() == 0 {
        seq![]
    } else {
        hex_chars(b.drop_last()) + seq![hex_digit(b.last() as int / 16), hex_digit(b.last() as int % 16)]
    }
}

/// The seal of a token prefix.
pub open spec fn seal_spec(tokens: Seq<usize>) -> Seq<char> {
    hex_chars(sha256_digest(token_bytes(tokens)))
}

fn hex_byte(d: u8) -> (r: u8)
    requires
        d < 16,
    ensures
        r as char == hex_digit(d as int),
        r < 128,
{
    if d < 10 {
        48 + d
    } else {
        87 + d
    }
}

/// The seal: sha256 over the token ids (u32 little-endian), in lowercase hex.
pub fn seal_of(tokens: &[usize]) -> (s: String)
    ensures
        s@ == seal_spec(tokens@),
{
    let mut bytes: Vec<u8> = Vec::new();
    let mut i: usize = 0;
    while i < tokens.len()
        invariant
            0 <= i <= tokens.len(),
            bytes@ == token_bytes(tokens@.subrange(0, i as int)),
        decreases tokens.len() - i,
    {
        let t = tokens[i] as u32;
        let ghost before = bytes@;
        bytes.push((t % 256) as u8);
        bytes.push((t / 256 % 256) as u8);
        bytes.push((t / 65536 % 256) as u8);
        bytes.push((t / 16777216) as u8);
        proof {
            reveal_with_fuel(le_seq, 5);
            assert(tokens@.subrange(0, i + 1).drop_last() =~= tokens@.subrange(0, i as int));
            assert(bytes@ =~= before + le_seq(t as int, 4));
        }
        i += 1;
    }
    proof {
        assert(tokens@.subrange(0, tokens.len() as int) =~= tokens@);
    }
    seal_bytes(&bytes)
}

/// The seal of bytes: their sha256 in lowercase hex.
pub fn seal_bytes(bytes: &[u8]) -> (s: String)
    ensures
        s@ == hex_chars(sha256_digest(bytes@)),
{
    let digest = sha256(bytes);
    let mut hex: Vec<u8> = Vec::new();
    let ghost chars = hex_chars(digest@);
    let mut j: usize = 0;
    while j < digest.len()
        invariant
            0 <= j <= digest.len(),
            hex.len() == 2 * j,
            forall|q: int| 0 <= q < hex.len() ==> (#[trigger] hex@[q]) < 128,
            forall|q: int| 0 <= q < hex.len() ==> (#[trigger] hex@[q]) as char == hex_chars(digest@.subrange(0, j as int))[q],
            hex_chars(digest@.subrange(0, j as int)).len() == 2 * j,
        decreases digest.len() - j,
    {
        let c = digest[j];
        let hi = hex_byte(c / 16);
        let lo = hex_byte(c % 16);
        let ghost before = hex@;
        hex.push(hi);
        hex.push(lo);
        proof {
            assert(digest@.subrange(0, j + 1).drop_last() =~= digest@.subrange(0, j as int));
        }
        j += 1;
    }
    proof {
        assert(digest@.subrange(0, digest.len() as int) =~= digest@);
        assert forall|q: int| 0 <= q < chars.len() implies '\0' <= #[trigger] chars[q] <= '\u{7f}' by {
            assert(hex@[q] < 128);
            assert(hex@[q] as char == chars[q]);
        }
        vstd::utf8::is_ascii_chars_encode_utf8(chars);
        assert(hex@ =~= vstd::utf8::encode_utf8(chars));
        vstd::utf8::encode_utf8_valid_utf8(chars);
        vstd::utf8::encode_utf8_decode_utf8(chars);
    }
    match utf8_string(hex.as_slice()) {
        Some(s) => s,
        None => {
            proof {
                assert(false);
            }
            String::new()
        },
    }
}

// ── the acquisition ──────────────────────────────────────────────────────────

/// One position's kept state for one layer.
#[derive(Clone)]
pub struct Slice {
    /// the residual stream entering the layer
    pub x_in: Vec<u16>,
    /// normed and roped keys, kv_dim
    pub k: Vec<u16>,
    /// values, kv_dim
    pub v: Vec<u16>,
}

pub struct Acquisition {
    pub tokens: Vec<usize>,
    pub seal: String,
    pub addresses: Vec<Address>,
    /// layers × positions
    pub slices: Vec<Vec<Slice>>,
    /// the final normed hidden per position (the head's input), for pickup of logits
    pub final_h: Vec<Vec<u16>>,
    /// (layer, ring address) → position, one entry per key
    pub by_address: Vec<((usize, Address), usize)>,
}

/// The index holds key k.
pub open spec fn has_key(v: Seq<((usize, Address), usize)>, k: (usize, Address)) -> bool {
    exists|i: int| 0 <= i < v.len() && v[i].0 == k
}

/// The entries as a map from (layer, address) to position.
pub open spec fn index_view(v: Seq<((usize, Address), usize)>) -> Map<(usize, Address), usize> {
    Map::new(|k: (usize, Address)| has_key(v, k), |k: (usize, Address)| v[choose|i: int| 0 <= i < v.len() && v[i].0 == k].1)
}

/// No key is held twice.
pub open spec fn keys_distinct(v: Seq<((usize, Address), usize)>) -> bool {
    forall|i: int, j: int| 0 <= i < v.len() && 0 <= j < v.len() && i != j ==> v[i].0 != v[j].0
}

/// The length of the common prefix of a and b.
pub open spec fn common_prefix(a: Seq<usize>, b: Seq<usize>, k: int) -> bool {
    &&& 0 <= k <= a.len()
    &&& k <= b.len()
    &&& forall|i: int| 0 <= i < k ==> a[i] == b[i]
    &&& (k < a.len() && k < b.len() ==> a[k] != b[k])
}

/// Two keys are the same layer and the same address.
fn same_key(a: &(usize, Address), b: &(usize, Address)) -> (r: bool)
    ensures
        r == (*a == *b),
{
    let r = a.0 == b.0 && a.1.teeth[0] == b.1.teeth[0] && a.1.teeth[1] == b.1.teeth[1] && a.1.teeth[2] == b.1.teeth[2]
        && a.1.crt == b.1.crt;
    proof {
        broadcast use vstd::array::group_array_axioms;

        if r {
            assert(a.1.teeth =~= b.1.teeth);
        }
    }
    r
}

impl Acquisition {
    /// Every index entry names a layer and a position the slices hold, and no key twice.
    pub open spec fn wf(&self) -> bool {
        &&& keys_distinct(self.by_address@)
        &&& forall|i: int|
            0 <= i < self.by_address.len() ==> (#[trigger] self.by_address[i]).0.0 < self.slices.len()
                && self.by_address[i].1 < self.slices[self.by_address[i].0.0 as int].len()
    }

    /// (layer, address) → position.
    pub open spec fn index(&self) -> Map<(usize, Address), usize> {
        index_view(self.by_address@)
    }

    pub fn empty(n_layers: usize) -> (a: Acquisition)
        ensures
            a.tokens@ == Seq::<usize>::empty(),
            a.seal@ == seal_spec(Seq::<usize>::empty()),
            a.addresses@ == Seq::<Address>::empty(),
            a.slices.len() == n_layers,
            forall|l: int| 0 <= l < n_layers ==> (#[trigger] a.slices[l]).len() == 0,
            a.final_h@ == Seq::<Vec<u16>>::empty(),
            a.index() == Map::<(usize, Address), usize>::empty(),
            a.wf(),
    {
        let tokens: Vec<usize> = Vec::new();
        let seal = seal_of(tokens.as_slice());
        let mut slices: Vec<Vec<Slice>> = Vec::new();
        while slices.len() < n_layers
            invariant
                slices.len() <= n_layers,
                forall|l: int| 0 <= l < slices.len() ==> (#[trigger] slices[l]).len() == 0,
            decreases n_layers - slices.len(),
        {
            slices.push(Vec::new());
        }
        let a = Acquisition { tokens, seal, addresses: Vec::new(), slices, final_h: Vec::new(), by_address: Vec::new() };
        proof {
            assert(a.index() =~= Map::<(usize, Address), usize>::empty());
        }
        a
    }

    pub fn len(&self) -> (r: usize)
        ensures
            r == self.tokens.len(),
    {
        self.tokens.len()
    }

    pub fn is_empty(&self) -> (r: bool)
        ensures
            r == (self.tokens.len() == 0),
    {
        self.tokens.len() == 0
    }

    /// The checker: how many leading positions of `tokens` are information-contained here. The
    /// common prefix, token for token, and its seal as the receipt.
    pub fn contained_prefix(&self, tokens: &[usize]) -> (k: usize)
        ensures
            common_prefix(self.tokens@, tokens@, k as int),
    {
        let n = if self.tokens.len() < tokens.len() { self.tokens.len() } else { tokens.len() };
        let mut k: usize = 0;
        while k < n && self.tokens[k] == tokens[k]
            invariant
                0 <= k <= n,
                n <= self.tokens.len(),
                n <= tokens.len(),
                n == self.tokens.len() || n == tokens.len(),
                forall|i: int| 0 <= i < k ==> self.tokens@[i] == tokens@[i],
            decreases n - k,
        {
            k += 1;
        }
        if k > 0 {
            let a = seal_of(&self.tokens.as_slice()[0..k]);
            let b = seal_of(&tokens[0..k]);
            proof {
                assert(self.tokens@.subrange(0, k as int) =~= tokens@.subrange(0, k as int));
            }
            if a != b {
                return 0;
            }
        }
        k
    }

    /// Pick up a position's slice by its ring address (the digital checker's lookup).
    pub fn pick(&self, layer: usize, addr: Address) -> (r: Option<&Slice>)
        requires
            self.wf(),
        ensures
            r is Some <==> self.index().contains_key((layer, addr)),
            r matches Some(s) ==> *s == self.slices[layer as int][self.index()[(layer, addr)] as int],
    {
        let key = (layer, addr);
        let mut i: usize = 0;
        while i < self.by_address.len()
            invariant
                0 <= i <= self.by_address.len(),
                self.wf(),
                key == (layer, addr),
                forall|j: int| 0 <= j < i ==> (#[trigger] self.by_address[j]).0 != key,
            decreases self.by_address.len() - i,
        {
            if same_key(&self.by_address[i].0, &key) {
                let p = self.by_address[i].1;
                proof {
                    let e = self.by_address@;
                    assert(has_key(e, key));
                    let c = choose|q: int| 0 <= q < e.len() && e[q].0 == key;
                    assert(c == i);
                    assert(self.by_address[i as int].0 == key);
                    assert(key.0 == layer);
                    assert(self.by_address[i as int].0.0 == key.0);
                    assert(self.by_address[i as int].0.0 < self.slices.len());
                    assert(self.by_address[i as int].0.0 == layer);
                }
                return Some(&self.slices[layer][p]);
            }
            i += 1;
        }
        None
    }

    /// Stamp the next position: its token, its ring address, and the seal of the whole prefix.
    pub fn push_position(&mut self, token: usize)
        requires
            old(self).tokens.len() < u64::MAX,
        ensures
            final(self).tokens@ == old(self).tokens@.push(token),
            final(self).addresses@ == old(self).addresses@.push(address_spec(old(self).tokens.len() as int)),
            final(self).seal@ == seal_spec(final(self).tokens@),
            final(self).slices == old(self).slices,
            final(self).final_h == old(self).final_h,
            final(self).by_address == old(self).by_address,
    {
        let pos = self.tokens.len() as u64;
        let addr = Clock::address_of(pos);
        self.tokens.push(token);
        self.addresses.push(addr);
        self.seal = seal_of(self.tokens.as_slice());
    }

    /// Keep a position's slice for a layer, and index it by the position's address.
    pub fn record(&mut self, layer: usize, pos: usize, slice: Slice)
        requires
            old(self).wf(),
            layer < old(self).slices.len(),
            old(self).slices[layer as int].len() == pos,
            pos < old(self).addresses.len(),
        ensures
            final(self).wf(),
            final(self).slices.len() == old(self).slices.len(),
            final(self).slices[layer as int]@ == old(self).slices[layer as int]@.push(slice),
            forall|l: int| 0 <= l < old(self).slices.len() && l != layer ==> #[trigger] final(self).slices[l] == old(self).slices[l],
            final(self).index() == old(self).index().insert((layer, old(self).addresses[pos as int]), pos),
            final(self).tokens == old(self).tokens,
            final(self).addresses == old(self).addresses,
            final(self).seal == old(self).seal,
            final(self).final_h == old(self).final_h,
    {
        let mut row: Vec<Slice> = Vec::new();
        std::mem::swap(&mut row, &mut self.slices[layer]);
        row.push(slice);
        std::mem::swap(&mut row, &mut self.slices[layer]);
        let key = (layer, self.addresses[pos]);
        let ghost e0 = self.by_address@;
        let mut i: usize = 0;
        let mut found = false;
        while i < self.by_address.len() && !found
            invariant
                0 <= i <= self.by_address.len(),
                self.by_address@ == e0,
                found ==> i < e0.len() && e0[i as int].0 == key,
                forall|j: int| 0 <= j < i && !(found && j == i) ==> (#[trigger] e0[j]).0 != key,
            decreases self.by_address.len() - i + if found { 0int } else { 1 },
        {
            if same_key(&self.by_address[i].0, &key) {
                found = true;
            } else {
                i += 1;
            }
        }
        if found {
            self.by_address.set(i, (key, pos));
        } else {
            self.by_address.push((key, pos));
        }
        proof {
            let e = self.by_address@;
            assert(keys_distinct(e)) by {
                assert forall|a: int, b: int| 0 <= a < e.len() && 0 <= b < e.len() && a != b implies e[a].0 != e[b].0 by {
                    if found {
                        if a == i {
                            assert(e[b] == e0[b]);
                        } else if b == i {
                            assert(e[a] == e0[a]);
                        } else {
                            assert(e[a] == e0[a] && e[b] == e0[b]);
                        }
                    } else {
                        if a < e0.len() && b < e0.len() {
                            assert(e[a] == e0[a] && e[b] == e0[b]);
                        }
                    }
                }
            }
            assert forall|q: int| 0 <= q < e.len() implies (#[trigger] e[q]).0.0 < self.slices.len() && e[q].1
                < self.slices[e[q].0.0 as int].len() by {
                if !(q == i && found) && q < e0.len() {
                    assert(e[q] == e0[q]);
                    assert(old(self).by_address[q].0.0 < old(self).slices.len());
                }
            }
            assert(index_view(e) =~= index_view(e0).insert(key, pos)) by {
                assert forall|k: (usize, Address)| #[trigger] index_view(e).contains_key(k) == index_view(e0).insert(key, pos).contains_key(k) by {
                    if k != key && has_key(e0, k) {
                        let c = choose|q: int| 0 <= q < e0.len() && e0[q].0 == k;
                        assert(e[c].0 == k);
                    }
                    if k == key {
                        if found {
                            assert(e[i as int].0 == key);
                        } else {
                            assert(e[e.len() - 1].0 == key);
                        }
                    }
                }
                assert forall|k: (usize, Address)| #[trigger] index_view(e).contains_key(k) implies index_view(e)[k] == index_view(e0).insert(key, pos)[k] by {
                    let c = choose|q: int| 0 <= q < e.len() && e[q].0 == k;
                    if k == key {
                        if found {
                            assert(c == i);
                        } else {
                            assert(c == e.len() - 1);
                        }
                    } else {
                        let c0 = choose|q: int| 0 <= q < e0.len() && e0[q].0 == k;
                        assert(e[c0].0 == k);
                        assert(c == c0);
                    }
                }
            }
        }
    }

    /// Truncate to the first `n` positions (a re-slice that diverges after n).
    pub fn truncate(&mut self, n: usize)
        requires
            old(self).wf(),
        ensures
            final(self).wf(),
            final(self).tokens@ == if n <= old(self).tokens.len() { old(self).tokens@.subrange(0, n as int) } else { old(self).tokens@ },
            final(self).addresses@ == if n <= old(self).addresses.len() { old(self).addresses@.subrange(0, n as int) } else { old(self).addresses@ },
            final(self).slices.len() == old(self).slices.len(),
            forall|l: int| 0 <= l < old(self).slices.len() ==> (#[trigger] final(self).slices[l])@ == if n <= old(self).slices[l].len() {
                old(self).slices[l]@.subrange(0, n as int)
            } else {
                old(self).slices[l]@
            },
            final(self).final_h@ == if n <= old(self).final_h.len() { old(self).final_h@.subrange(0, n as int) } else { old(self).final_h@ },
            final(self).index() == old(self).index().restrict(old(self).index().dom().filter(|k: (usize, Address)| old(self).index()[k] < n)),
            final(self).seal@ == seal_spec(final(self).tokens@),
    {
        let ghost s0 = self.slices@;
        let mut l: usize = 0;
        while l < self.slices.len()
            invariant
                0 <= l <= self.slices.len(),
                self.slices.len() == s0.len(),
                forall|q: int| 0 <= q < l ==> (#[trigger] self.slices[q])@ == if n <= s0[q].len() {
                    s0[q]@.subrange(0, n as int)
                } else {
                    s0[q]@
                },
                forall|q: int| l <= q < self.slices.len() ==> #[trigger] self.slices[q] == s0[q],
                self.by_address == old(self).by_address,
                self.tokens == old(self).tokens,
                self.addresses == old(self).addresses,
                self.final_h == old(self).final_h,
                s0 == old(self).slices@,
            decreases s0.len() - l,
        {
            let mut row: Vec<Slice> = Vec::new();
            std::mem::swap(&mut row, &mut self.slices[l]);
            row.truncate(n);
            std::mem::swap(&mut row, &mut self.slices[l]);
            l += 1;
        }
        self.tokens.truncate(n);
        self.addresses.truncate(n);
        self.final_h.truncate(n);
        let ghost e0 = self.by_address@;
        let mut kept: Vec<((usize, Address), usize)> = Vec::new();
        let mut i: usize = 0;
        while i < self.by_address.len()
            invariant
                0 <= i <= self.by_address.len(),
                self.by_address@ == e0,
                keys_distinct(e0),
                keys_distinct(kept@),
                forall|q: int| 0 <= q < kept.len() ==> #[trigger] kept@[q].1 < n,
                forall|q: int| 0 <= q < kept.len() ==> exists|j: int| 0 <= j < i && e0[j] == #[trigger] kept@[q],
                forall|j: int| 0 <= j < i && (#[trigger] e0[j]).1 < n ==> exists|q: int| 0 <= q < kept.len() && kept@[q] == e0[j],
            decreases self.by_address.len() - i,
        {
            let entry = self.by_address[i];
            let ghost k0 = kept@;
            if entry.1 < n {
                proof {
                    assert forall|q: int| 0 <= q < kept.len() implies kept@[q].0 != entry.0 by {
                        let j = choose|j: int| 0 <= j < i && e0[j] == kept@[q];
                        assert(j != i);
                    }
                }
                kept.push(entry);
            }
            proof {
                assert forall|j: int| 0 <= j < i + 1 && (#[trigger] e0[j]).1 < n implies exists|q: int| 0 <= q < kept.len() && kept@[q] == e0[j] by {
                    if j == i {
                        assert(kept@[kept.len() - 1] == e0[j]);
                    } else {
                        let q = choose|q: int| 0 <= q < k0.len() && k0[q] == e0[j];
                        assert(kept@[q] == e0[j]);
                    }
                }
                assert forall|q: int| 0 <= q < kept.len() implies exists|j: int| 0 <= j < i + 1 && e0[j] == #[trigger] kept@[q] by {
                    if q < k0.len() {
                        let j = choose|j: int| 0 <= j < i && e0[j] == k0[q];
                        assert(e0[j] == kept@[q]);
                    } else {
                        assert(e0[i as int] == kept@[q]);
                    }
                }
            }
            i += 1;
        }
        self.by_address = kept;
        self.seal = seal_of(self.tokens.as_slice());
        proof {
            let e = self.by_address@;
            let m0 = index_view(e0);
            let want = m0.restrict(m0.dom().filter(|k: (usize, Address)| m0[k] < n));
            assert forall|k: (usize, Address)| #[trigger] index_view(e).contains_key(k) == want.contains_key(k) by {
                if has_key(e, k) {
                    let q = choose|q: int| 0 <= q < e.len() && e[q].0 == k;
                    let j = choose|j: int| 0 <= j < e0.len() && e0[j] == e[q];
                    assert(has_key(e0, k));
                    let c = choose|c: int| 0 <= c < e0.len() && e0[c].0 == k;
                    assert(c == j);
                }
                if want.contains_key(k) {
                    let c = choose|c: int| 0 <= c < e0.len() && e0[c].0 == k;
                    assert(e0[c].1 < n);
                    let q = choose|q: int| 0 <= q < e.len() && e[q] == e0[c];
                    assert(e[q].0 == k);
                }
            }
            assert forall|k: (usize, Address)| #[trigger] index_view(e).contains_key(k) implies index_view(e)[k] == want[k] by {
                let q = choose|q: int| 0 <= q < e.len() && e[q].0 == k;
                let j = choose|j: int| 0 <= j < e0.len() && e0[j] == e[q];
                let c = choose|c: int| 0 <= c < e0.len() && e0[c].0 == k;
                assert(c == j);
            }
            assert(index_view(e) =~= want);
            assert forall|i2: int| 0 <= i2 < e.len() implies (#[trigger] e[i2]).0.0 < self.slices.len() && e[i2].1 < self.slices[e[i2].0.0 as int].len() by {
                let j = choose|j: int| 0 <= j < e0.len() && e0[j] == e[i2];
            }
        }
    }
}

} // verus!
