//! The string pool: its two wire layouts, packed string ids, and the hashed
//! layout that writers produce.

use vstd::prelude::*;
use vstd::utf8::*;
use vstd::slice::slice_subrange;
use crate::bytes::{u16_at, u32_at, le16, le32, read_u16, read_u32, push_u16, push_u32, push_bytes, lemma_le16, lemma_le32};
use crate::error::LsfError;
use crate::text::{str_eq, utf8_strict, with_hex8, hex8};

verus! {

/// The packed id that stands for "no string".
pub const NO_STRING: u32 = 0xffff_ffff;

/// The number of buckets of the canonical layout.
pub const BUCKET_COUNT: usize = 0x200;

/// A string pool: chains of strings, one per bucket. A packed id holds the
/// bucket in its upper 16 bits and the position in the chain in its lower 16.
pub struct StringTable {
    pub buckets: Vec<Vec<String>>,
}

/// The characters of each string, bucket by bucket.
pub open spec fn chain_view(c: Seq<String>) -> Seq<Seq<char>> {
    c.map_values(|s: String| s@)
}

/// The characters of each string of each bucket.
pub open spec fn buckets_view(b: Seq<Vec<String>>) -> Seq<Seq<Seq<char>>> {
    b.map_values(|c: Vec<String>| chain_view(c@))
}

impl View for StringTable {
    type V = Seq<Seq<Seq<char>>>;

    open spec fn view(&self) -> Seq<Seq<Seq<char>>> {
        buckets_view(self.buckets@)
    }
}

/// The string that a packed id names in a pool, if any.
pub open spec fn resolve(t: Seq<Seq<Seq<char>>>, id: u32) -> Option<Seq<char>> {
    let b = (id / 0x1_0000) as int;
    let c = (id % 0x1_0000) as int;
    if id != NO_STRING && b < t.len() && c < t[b].len() {
        Some(t[b][c])
    } else {
        None
    }
}

/// The packed id of bucket `b`, position `c`.
pub open spec fn pack_id(b: int, c: int) -> u32 {
    (b * 0x1_0000 + c) as u32
}

/// One length-prefixed string at `pos`: its text and the position after it.
pub open spec fn parse_entry(d: Seq<u8>, pos: int, width: int) -> Option<(Seq<char>, int)> {
    if pos + width > d.len() {
        None
    } else {
        let n = u16_at(d, pos + width - 2) as int;
        let start = pos + width;
        if start + n > d.len() || !valid_utf8(d.subrange(start, start + n)) {
            None
        } else {
            Some((decode_utf8(d.subrange(start, start + n)), start + n))
        }
    }
}

/// A chain of `k` strings with 16-bit length prefixes starting at `pos`.
pub open spec fn parse_chain(d: Seq<u8>, pos: int, k: nat) -> Option<(Seq<Seq<char>>, int)>
    decreases k,
{
    if k == 0 {
        Some((Seq::empty(), pos))
    } else {
        match parse_entry(d, pos, 2) {
            Some((s, next)) => match parse_chain(d, next, (k - 1) as nat) {
                Some((rest, end)) => Some((seq![s] + rest, end)),
                None => None,
            },
            None => None,
        }
    }
}

/// `k` buckets starting at `pos`, each a 16-bit chain length and its chain.
pub open spec fn parse_buckets(d: Seq<u8>, pos: int, k: nat) -> Option<(Seq<Seq<Seq<char>>>, int)>
    decreases k,
{
    if k == 0 {
        Some((Seq::empty(), pos))
    } else if pos + 2 > d.len() {
        None
    } else {
        match parse_chain(d, pos + 2, u16_at(d, pos) as nat) {
            Some((c, next)) => match parse_buckets(d, next, (k - 1) as nat) {
                Some((rest, end)) => Some((seq![c] + rest, end)),
                None => None,
            },
            None => None,
        }
    }
}

/// The flat layout from `pos`: records of a flag byte, a pad byte, a 16-bit
/// length and the text, until fewer than four bytes remain.
pub open spec fn parse_flat(d: Seq<u8>, pos: int) -> Option<Seq<Seq<char>>>
    decreases d.len() - pos,
{
    if pos < 0 || pos + 4 > d.len() {
        Some(Seq::empty())
    } else {
        match parse_entry(d, pos, 4) {
            Some((s, next)) => match parse_flat(d, next) {
                Some(rest) => Some(seq![s] + rest),
                None => None,
            },
            None => None,
        }
    }
}

/// The canonical number of buckets with the flat strings placed in bucket 0.
pub open spec fn flat_table(strings: Seq<Seq<char>>) -> Seq<Seq<Seq<char>>> {
    Seq::new(BUCKET_COUNT as nat, |b: int| if b == 0 { strings } else { Seq::empty() })
}

/// The pool that a Strings chunk decodes to, or `None` where it is malformed.
/// An empty chunk is an empty canonical pool; a zero bucket count marks the
/// flat layout.
pub open spec fn parse_table(d: Seq<u8>) -> Option<Seq<Seq<Seq<char>>>> {
    if d.len() == 0 {
        Some(flat_table(Seq::empty()))
    } else if d.len() < 4 {
        None
    } else if u32_at(d, 0) == 0 {
        match parse_flat(d, 4) {
            Some(strings) => Some(flat_table(strings)),
            None => None,
        }
    } else {
        match parse_buckets(d, 4, u32_at(d, 0) as nat) {
            Some((t, _)) => Some(t),
            None => None,
        }
    }
}

/// Reads one length-prefixed string whose `width`-byte header starts at `pos`.
fn read_entry(d: &[u8], pos: usize, width: usize) -> (r: Option<(String, usize)>)
    requires
        width == 2 || width == 4,
    ensures
        match parse_entry(d@, pos as int, width as int) {
            Some((s, next)) => (r matches Some((x, p)) && x@ == s && p as int == next),
            None => r is None,
        },
{
    if pos > d.len() || width > d.len() - pos {
        return None;
    }
    let n = read_u16(d, pos + width - 2) as usize;
    let start = pos + width;
    if n > d.len() - start {
        return None;
    }
    match utf8_strict(slice_subrange(d, start, start + n)) {
        Some(s) => Some((s, start + n)),
        None => None,
    }
}

fn read_chain(d: &[u8], pos: usize, k: u16) -> (r: Option<(Vec<String>, usize)>)
    ensures
        match parse_chain(d@, pos as int, k as nat) {
            Some((c, next)) => (r matches Some((x, p)) && chain_view(x@) == c && p as int == next),
            None => r is None,
        },
{
    let mut out: Vec<String> = Vec::new();
    let mut p = pos;
    let mut i: u16 = 0;
    while i < k
        invariant
            i <= k,
            parse_chain(d@, pos as int, k as nat) == match parse_chain(d@, p as int, (k - i) as nat) {
                Some((rest, end)) => Some((chain_view(out@) + rest, end)),
                None => None,
            },
        decreases k - i,
    {
        match read_entry(d, p, 2) {
            Some((s, next)) => {
                proof {
                    assert(chain_view(out@.push(s)) =~= chain_view(out@) + seq![s@]);
                    match parse_chain(d@, next as int, (k - i - 1) as nat) {
                        Some((rest, end)) => {
                            assert(chain_view(out@) + (seq![s@] + rest) =~= chain_view(out@.push(s)) + rest);
                        },
                        None => {},
                    }
                }
                out.push(s);
                p = next;
            },
            None => {
                return None;
            },
        }
        i = i + 1;
    }
    assert(chain_view(out@) + Seq::<Seq<char>>::empty() =~= chain_view(out@));
    Some((out, p))
}

/// Decodes a Strings chunk; fails with `InvalidStringTable` where a length
/// runs past the chunk or a string is not UTF-8.
pub fn parse_string_table(d: &[u8]) -> (r: Result<StringTable, LsfError>)
    ensures
        match parse_table(d@) {
            Some(t) => (r matches Ok(x) && x@ == t),
            None => r == Err::<StringTable, LsfError>(LsfError::InvalidStringTable),
        },
{
    if d.len() == 0 {
        let t = flat_buckets(Vec::new());
        assert(chain_view(Seq::<String>::empty()) =~= Seq::<Seq<char>>::empty());
        return Ok(t);
    }
    if d.len() < 4 {
        return Err(LsfError::InvalidStringTable);
    }
    let count = read_u32(d, 0);
    if count == 0 {
        match read_flat(d) {
            Some(strings) => Ok(flat_buckets(strings)),
            None => Err(LsfError::InvalidStringTable),
        }
    } else {
        let mut buckets: Vec<Vec<String>> = Vec::new();
        let mut p: usize = 4;
        let mut b: u32 = 0;
        while b < count
            invariant
                b <= count,
                count == u32_at(d@, 0),
                parse_table(d@) == match parse_buckets(d@, p as int, (count - b) as nat) {
                    Some((rest, _)) => Some(buckets_view(buckets@) + rest),
                    None => None,
                },
            decreases count - b,
        {
            if p > d.len() || 2 > d.len() - p {
                return Err(LsfError::InvalidStringTable);
            }
            let k = read_u16(d, p);
            match read_chain(d, p + 2, k) {
                Some((chain, next)) => {
                    proof {
                        let before = buckets_view(buckets@);
                        let after = buckets_view(buckets@.push(chain));
                        assert(after =~= before + seq![chain_view(chain@)]);
                        match parse_buckets(d@, next as int, (count - b - 1) as nat) {
                            Some((rest, end)) => {
                                assert(before + (seq![chain_view(chain@)] + rest) =~= after + rest);
                            },
                            None => {},
                        }
                    }
                    buckets.push(chain);
                    p = next;
                },
                None => {
                    return Err(LsfError::InvalidStringTable);
                },
            }
            b = b + 1;
        }
        let t = StringTable { buckets };
        assert(t@ + Seq::<Seq<Seq<char>>>::empty() =~= t@);
        Ok(t)
    }
}

/// The flat records from offset 4.
fn read_flat(d: &[u8]) -> (r: Option<Vec<String>>)
    requires
        d@.len() >= 4,
    ensures
        match parse_flat(d@, 4) {
            Some(s) => (r matches Some(x) && chain_view(x@) == s),
            None => r is None,
        },
{
    let mut out: Vec<String> = Vec::new();
    let mut p: usize = 4;
    while p <= d.len() && 4 <= d.len() - p
        invariant
            4 <= p,
            parse_flat(d@, 4) == match parse_flat(d@, p as int) {
                Some(rest) => Some(chain_view(out@) + rest),
                None => None,
            },
        decreases d@.len() - p,
    {
        match read_entry(d, p, 4) {
            Some((s, next)) => {
                proof {
                    assert(chain_view(out@.push(s)) =~= chain_view(out@) + seq![s@]);
                    match parse_flat(d@, next as int) {
                        Some(rest) => {
                            assert(chain_view(out@) + (seq![s@] + rest) =~= chain_view(out@.push(s)) + rest);
                        },
                        None => {},
                    }
                }
                out.push(s);
                p = next;
            },
            None => {
                return None;
            },
        }
    }
    assert(chain_view(out@) + Seq::<Seq<char>>::empty() =~= chain_view(out@));
    Some(out)
}

/// The canonical bucket count with `strings` in bucket 0.
fn flat_buckets(strings: Vec<String>) -> (t: StringTable)
    ensures
        t@ == flat_table(chain_view(strings@)),
{
    let ghost first = strings@;
    let mut buckets: Vec<Vec<String>> = Vec::new();
    buckets.push(strings);
    let mut b: usize = 1;
    while b < BUCKET_COUNT
        invariant
            1 <= b <= BUCKET_COUNT,
            buckets@.len() == b,
            buckets@[0]@ == first,
            forall|j: int| 1 <= j < b ==> (#[trigger] buckets@[j])@.len() == 0,
        decreases BUCKET_COUNT - b,
    {
        buckets.push(Vec::new());
        b = b + 1;
    }
    let t = StringTable { buckets };
    assert forall|j: int| 0 <= j < BUCKET_COUNT implies t@[j] == flat_table(chain_view(first))[j] by {
        if j > 0 {
            assert(chain_view(buckets@[j]@) =~= Seq::<Seq<char>>::empty());
        }
    }
    assert(t@ =~= flat_table(chain_view(first)));
    t
}

/// The string a packed id names, if the pool holds one under it.
pub fn get_string_from_hash(t: &StringTable, id: u32) -> (r: Option<String>)
    ensures
        match resolve(t@, id) {
            Some(s) => (r matches Some(x) && x@ == s),
            None => r is None,
        },
{
    if id == NO_STRING {
        return None;
    }
    let b = (id / 0x1_0000) as usize;
    let c = (id % 0x1_0000) as usize;
    if b < t.buckets.len() && c < t.buckets[b].len() {
        Some(t.buckets[b][c].clone())
    } else {
        None
    }
}

/// The name a record's packed id gives: the pooled string, or `prefix`
/// followed by the id in eight hexadecimal digits where the pool holds none.
pub open spec fn name_of(t: Seq<Seq<Seq<char>>>, id: u32, prefix: Seq<char>) -> Seq<char> {
    match resolve(t, id) {
        Some(s) => s,
        None => prefix + hex8(id),
    }
}

/// Resolves a record's name, falling back to a synthetic one.
pub fn resolve_name(t: &StringTable, id: u32, prefix: &str) -> (r: String)
    ensures
        r@ == name_of(t@, id, prefix@),
{
    match get_string_from_hash(t, id) {
        Some(s) => s,
        None => with_hex8(prefix, id),
    }
}

/// The 32-bit FNV-1a hash of a byte run, which places strings in buckets.
pub open spec fn fnv1a(b: Seq<u8>) -> u32
    decreases b.len(),
{
    if b.len() == 0 {
        0x811c_9dc5
    } else {
        (((fnv1a(b.drop_last()) ^ (b.last() as u32)) as int * 0x0100_0193) % 0x1_0000_0000) as u32
    }
}

pub fn fnv1a_hash(b: &[u8]) -> (r: u32)
    ensures
        r == fnv1a(b@),
{
    let mut h: u32 = 0x811c_9dc5;
    let mut k: usize = 0;
    while k < b.len()
        invariant
            k <= b@.len(),
            h == fnv1a(b@.subrange(0, k as int)),
        decreases b@.len() - k,
    {
        assert(b@.subrange(0, k + 1).drop_last() =~= b@.subrange(0, k as int));
        h = ((((h ^ (b[k] as u32)) as u64) * 0x0100_0193) % 0x1_0000_0000) as u32;
        k = k + 1;
    }
    assert(b@.subrange(0, b@.len() as int) =~= b@);
    h
}

/// The bucket that the canonical layout places a string in.
pub open spec fn bucket_of(s: Seq<char>) -> int {
    (fnv1a(encode_utf8(s)) % BUCKET_COUNT as u32) as int
}

/// The canonical pool: a full set of buckets.
pub fn new_table() -> (t: StringTable)
    ensures
        t@.len() == BUCKET_COUNT,
        forall|b: int| 0 <= b < BUCKET_COUNT ==> (#[trigger] t@[b]).len() == 0,
{
    let t = flat_buckets(Vec::new());
    assert(chain_view(Seq::<String>::empty()) =~= Seq::<Seq<char>>::empty());
    t
}

/// Every string a pool names stays named, under the same id, in another.
pub open spec fn extends(old_t: Seq<Seq<Seq<char>>>, new_t: Seq<Seq<Seq<char>>>) -> bool {
    &&& old_t.len() == new_t.len()
    &&& forall|b: int| 0 <= b < old_t.len() ==> (#[trigger] new_t[b]).len() >= old_t[b].len()
        && new_t[b].subrange(0, old_t[b].len() as int) == old_t[b]
}

/// A packed id splits back into its bucket and position.
pub proof fn lemma_pack_id(b: int, c: int)
    requires
        0 <= b < 0x1_0000,
        0 <= c < 0x1_0000,
    ensures
        pack_id(b, c) as int == b * 0x1_0000 + c,
        pack_id(b, c) / 0x1_0000 == b,
        pack_id(b, c) % 0x1_0000 == c,
{
    assert(0 <= b * 0x1_0000 + c < 0x1_0000_0000 && (b * 0x1_0000 + c) / 0x1_0000 == b && (b * 0x1_0000 + c) % 0x1_0000 == c) by (nonlinear_arith)
        requires
            0 <= b < 0x1_0000,
            0 <= c < 0x1_0000,
    ;
}

/// A pool extends itself.
pub proof fn lemma_extends_refl(t: Seq<Seq<Seq<char>>>)
    ensures
        extends(t, t),
{
    assert forall|j: int| 0 <= j < t.len() implies (#[trigger] t[j]).len() >= t[j].len()
        && t[j].subrange(0, t[j].len() as int) == t[j] by {
        assert(t[j].subrange(0, t[j].len() as int) =~= t[j]);
    }
}

/// The number of strings a pool holds.
pub open spec fn table_total(t: Seq<Seq<Seq<char>>>) -> nat
    decreases t.len(),
{
    if t.len() == 0 {
        0
    } else {
        t[0].len() + table_total(t.drop_first())
    }
}

/// A pool of empty buckets holds no string.
pub proof fn lemma_total_empty(t: Seq<Seq<Seq<char>>>)
    requires
        forall|b: int| 0 <= b < t.len() ==> (#[trigger] t[b]).len() == 0,
    ensures
        table_total(t) == 0,
    decreases t.len(),
{
    if t.len() > 0 {
        assert forall|b: int| 0 <= b < t.drop_first().len() implies (#[trigger] t.drop_first()[b]).len() == 0 by {
            assert(t.drop_first()[b] == t[b + 1]);
        }
        lemma_total_empty(t.drop_first());
    }
}

/// No bucket holds more strings than the pool.
pub proof fn lemma_bucket_within_total(t: Seq<Seq<Seq<char>>>, b: int)
    requires
        0 <= b < t.len(),
    ensures
        t[b].len() <= table_total(t),
    decreases t.len(),
{
    if b > 0 {
        lemma_bucket_within_total(t.drop_first(), b - 1);
    }
}

/// Adding a string to a bucket adds one to the pool.
pub proof fn lemma_total_push(t: Seq<Seq<Seq<char>>>, b: int, x: Seq<char>)
    requires
        0 <= b < t.len(),
    ensures
        table_total(t.update(b, t[b].push(x))) == table_total(t) + 1,
    decreases t.len(),
{
    let u = t.update(b, t[b].push(x));
    if b == 0 {
        assert(u.drop_first() =~= t.drop_first());
    } else {
        assert(u.drop_first() =~= t.drop_first().update(b - 1, t.drop_first()[b - 1].push(x)));
        lemma_total_push(t.drop_first(), b - 1, x);
    }
}

/// The hashed layout's placement: every string sits in the bucket its hash
/// picks, and no bucket holds a string twice; so the pool holds each string
/// at most once.
pub open spec fn pool_canonical(t: Seq<Seq<Seq<char>>>) -> bool {
    &&& forall|b: int, c: int| 0 <= b < t.len() && 0 <= c < t[b].len() ==> bucket_of(#[trigger] t[b][c]) == b
    &&& forall|b: int, c1: int, c2: int| 0 <= b < t.len() && 0 <= c1 < c2 < t[b].len() ==> #[trigger] t[b][c1] != #[trigger] t[b][c2]
}

/// Extending is transitive.
pub proof fn lemma_extends_trans(a: Seq<Seq<Seq<char>>>, b: Seq<Seq<Seq<char>>>, c: Seq<Seq<Seq<char>>>)
    requires
        extends(a, b),
        extends(b, c),
    ensures
        extends(a, c),
{
    assert forall|j: int| 0 <= j < a.len() implies (#[trigger] c[j]).len() >= a[j].len()
        && c[j].subrange(0, a[j].len() as int) == a[j] by {
        assert(c[j].subrange(0, b[j].len() as int) == b[j]);
        assert(b[j].subrange(0, a[j].len() as int) == a[j]);
        assert(c[j].subrange(0, a[j].len() as int) =~= b[j].subrange(0, a[j].len() as int));
    }
}

/// A string a pool names keeps its id in every extension.
pub proof fn lemma_resolve_stable(a: Seq<Seq<Seq<char>>>, b: Seq<Seq<Seq<char>>>, id: u32)
    requires
        extends(a, b),
        resolve(a, id) is Some,
    ensures
        resolve(b, id) == resolve(a, id),
{
    let bk = (id / 0x1_0000) as int;
    let c = (id % 0x1_0000) as int;
    assert(b[bk].subrange(0, a[bk].len() as int) == a[bk]);
    assert(b[bk][c] == b[bk].subrange(0, a[bk].len() as int)[c]);
}

/// Every chain of a pool, and every string in it, fits a 16-bit length.
pub open spec fn chains_fit(t: Seq<Seq<Seq<char>>>) -> bool {
    forall|b: int| 0 <= b < t.len() ==> (#[trigger] t[b]).len() <= 0xffff
        && forall|c: int| 0 <= c < t[b].len() ==> encode_utf8(#[trigger] t[b][c]).len() <= 0xffff
}

/// The id of `s` in the pool, adding it at the end of its hash bucket's chain
/// if it is not there yet; `None` where that chain is full.
pub fn intern(t: &mut StringTable, s: &String) -> (r: Option<u32>)
    requires
        old(t)@.len() == BUCKET_COUNT,
        chains_fit(old(t)@),
        encode_utf8(s@).len() <= 0xffff,
    ensures
        extends(old(t)@, final(t)@),
        chains_fit(final(t)@),
        r matches Some(id) ==> resolve(final(t)@, id) == Some(s@) && id / 0x1_0000 == bucket_of(s@),
        r is None ==> final(t)@ == old(t)@,
        old(t)@[bucket_of(s@)].contains(s@) ==> r is Some && final(t)@ == old(t)@,
        pool_canonical(old(t)@) ==> pool_canonical(final(t)@),
        old(t)@[bucket_of(s@)].len() < 0xffff ==> r is Some,
        !old(t)@[bucket_of(s@)].contains(s@) && r is Some ==> final(t)@ == old(t)@.update(
            bucket_of(s@),
            old(t)@[bucket_of(s@)].push(s@),
        ),
{
    let h = fnv1a_hash(s.as_str().as_bytes());
    assert(h == fnv1a(encode_utf8(s@)));
    let b = (h % 0x200) as usize;
    proof {
        assert(t.buckets@.len() == t@.len());
    }
    let n = t.buckets[b].len();
    proof {
        assert(t@[b as int] == chain_view(t.buckets@[b as int]@));
    }
    let mut c: usize = 0;
    while c < n
        invariant
            t@ == old(t)@,
            b < BUCKET_COUNT,
            n == t@[b as int].len(),
            n == t.buckets@[b as int]@.len(),
            t.buckets@.len() == BUCKET_COUNT,
            t@[b as int] == chain_view(t.buckets@[b as int]@),
            chains_fit(t@),
            h == fnv1a(encode_utf8(s@)),
            b == h % 0x200,
            c <= n,
            forall|j: int| 0 <= j < c ==> t@[b as int][j] != s@,
        decreases n - c,
    {
        if str_eq(t.buckets[b][c].as_str(), s.as_str()) {
            proof {
                assert(t@[b as int][c as int] == t.buckets@[b as int]@[c as int]@);
                lemma_pack_id(b as int, c as int);
                lemma_extends_refl(t@);
                assert(h == fnv1a(encode_utf8(s@)));
            }
            return Some((b * 0x1_0000 + c) as u32);
        }
        proof {
            assert(t@[b as int][c as int] == t.buckets@[b as int]@[c as int]@);
        }
        c = c + 1;
    }
    proof {
        assert(bucket_of(s@) == b as int);
        assert(!old(t)@[b as int].contains(s@));
    }
    if n >= 0xffff {
        proof {
            lemma_extends_refl(t@);
        }
        return None;
    }
    let mut chain: Vec<String> = Vec::new();
    std::mem::swap(&mut chain, &mut t.buckets[b]);
    chain.push(s.clone());
    std::mem::swap(&mut chain, &mut t.buckets[b]);
    proof {
        assert(t@[b as int] =~= old(t)@[b as int].push(s@));
        assert(t@ =~= old(t)@.update(b as int, old(t)@[b as int].push(s@)));
        if pool_canonical(old(t)@) {
            assert forall|b2: int, c: int| 0 <= b2 < t@.len() && 0 <= c < t@[b2].len() implies bucket_of(#[trigger] t@[b2][c]) == b2 by {
                if b2 != b || c < old(t)@[b2].len() {
                    assert(t@[b2][c] == old(t)@[b2][c]);
                }
            }
            assert forall|b2: int, c1: int, c2: int| 0 <= b2 < t@.len() && 0 <= c1 < c2 < t@[b2].len() implies #[trigger] t@[b2][c1] != #[trigger] t@[b2][c2] by {
                if b2 != b || c2 < old(t)@[b2].len() {
                    assert(t@[b2][c1] == old(t)@[b2][c1]);
                    assert(t@[b2][c2] == old(t)@[b2][c2]);
                } else {
                    assert(t@[b2][c1] == old(t)@[b2][c1]);
                    assert(old(t)@[b2].contains(old(t)@[b2][c1]));
                }
            }
        }
        assert forall|j: int| 0 <= j < t@.len() implies (#[trigger] t@[j]).len() <= 0xffff
            && forall|c: int| 0 <= c < t@[j].len() ==> encode_utf8(#[trigger] t@[j][c]).len() <= 0xffff by {
            if j != b {
                assert(t@[j] == old(t)@[j]);
            } else {
                assert forall|c: int| 0 <= c < t@[j].len() implies encode_utf8(#[trigger] t@[j][c]).len() <= 0xffff by {
                    if c < old(t)@[j].len() {
                        assert(t@[j][c] == old(t)@[j][c]);
                    }
                }
            }
        }
        assert forall|j: int| 0 <= j < old(t)@.len() implies (#[trigger] t@[j]).len() >= old(t)@[j].len()
            && t@[j].subrange(0, old(t)@[j].len() as int) == old(t)@[j] by {
            if j == b {
                assert(t@[j].subrange(0, old(t)@[j].len() as int) =~= old(t)@[j]);
            } else {
                assert(t@[j] == old(t)@[j]);
                assert(t@[j].subrange(0, old(t)@[j].len() as int) =~= old(t)@[j]);
            }
        }
        lemma_pack_id(b as int, n as int);
    }
    Some((b * 0x1_0000 + n) as u32)
}

/// The bytes of one pooled string: its UTF-8 length, then its UTF-8 bytes.
pub open spec fn entry_bytes(s: Seq<char>) -> Seq<u8> {
    le16(encode_utf8(s).len() as u16) + encode_utf8(s)
}

/// The bytes of one bucket: its chain length, then each string.
pub open spec fn chain_bytes(c: Seq<Seq<char>>) -> Seq<u8> {
    le16(c.len() as u16) + c.map_values(|s: Seq<char>| entry_bytes(s)).flatten()
}

/// The bytes of a pool in the hashed layout: the bucket count, then each bucket.
pub open spec fn table_bytes(t: Seq<Seq<Seq<char>>>) -> Seq<u8> {
    le32(t.len() as u32) + t.map_values(|c: Seq<Seq<char>>| chain_bytes(c)).flatten()
}

proof fn lemma_entries_len(c: Seq<Seq<char>>)
    requires
        forall|k: int| 0 <= k < c.len() ==> encode_utf8(#[trigger] c[k]).len() <= 0xffff,
    ensures
        c.map_values(|s: Seq<char>| entry_bytes(s)).flatten().len() <= c.len() * 0x10001,
    decreases c.len(),
{
    if c.len() > 0 {
        let rest = c.drop_first();
        assert(c.map_values(|s: Seq<char>| entry_bytes(s)).drop_first() =~= rest.map_values(|s: Seq<char>| entry_bytes(s)));
        assert forall|k: int| 0 <= k < rest.len() implies encode_utf8(#[trigger] rest[k]).len() <= 0xffff by {
            assert(rest[k] == c[k + 1]);
        }
        lemma_entries_len(rest);
        assert(encode_utf8(c[0]).len() <= 0xffff);
    }
}

/// The hashed layout of a pool of `t.len()` buckets holding `table_total(t)`
/// strings of at most 0xffff bytes takes at most this many bytes.
pub proof fn lemma_table_bytes_len(t: Seq<Seq<Seq<char>>>)
    requires
        chains_fit(t),
    ensures
        t.map_values(|c: Seq<Seq<char>>| chain_bytes(c)).flatten().len() <= t.len() * 2 + table_total(t) * 0x10001,
    decreases t.len(),
{
    if t.len() > 0 {
        let rest = t.drop_first();
        assert(t.map_values(|c: Seq<Seq<char>>| chain_bytes(c)).drop_first() =~= rest.map_values(|c: Seq<Seq<char>>| chain_bytes(c)));
        assert forall|b: int| 0 <= b < rest.len() implies (#[trigger] rest[b]).len() <= 0xffff
            && forall|c: int| 0 <= c < rest[b].len() ==> encode_utf8(#[trigger] rest[b][c]).len() <= 0xffff by {
            assert(rest[b] == t[b + 1]);
        }
        lemma_table_bytes_len(rest);
        assert(forall|k: int| 0 <= k < t[0].len() ==> encode_utf8(#[trigger] t[0][k]).len() <= 0xffff);
        lemma_entries_len(t[0]);
    }
}

/// A pool that the hashed layout can store.
pub open spec fn storable(t: Seq<Seq<Seq<char>>>) -> bool {
    t.len() <= u32::MAX && chains_fit(t)
}

fn write_chain(out: &mut Vec<u8>, c: &Vec<String>)
    requires
        c@.len() <= 0xffff,
        forall|k: int| 0 <= k < c@.len() ==> encode_utf8((#[trigger] c@[k])@).len() <= 0xffff,
    ensures
        final(out)@ == old(out)@ + chain_bytes(chain_view(c@)),
{
    let ghost v = chain_view(c@);
    push_u16(out, c.len() as u16);
    let ghost start = out@;
    let mut k: usize = 0;
    while k < c.len()
        invariant
            k <= c@.len(),
            v == chain_view(c@),
            c@.len() <= 0xffff,
            forall|k: int| 0 <= k < c@.len() ==> encode_utf8((#[trigger] c@[k])@).len() <= 0xffff,
            out@ == start + v.subrange(0, k as int).map_values(|s: Seq<char>| entry_bytes(s)).flatten_alt(),
        decreases c@.len() - k,
    {
        let bytes = c[k].as_str().as_bytes();
        push_u16(out, bytes.len() as u16);
        push_bytes(out, bytes);
        proof {
            let m = v.subrange(0, k + 1).map_values(|s: Seq<char>| entry_bytes(s));
            assert(m.drop_last() =~= v.subrange(0, k as int).map_values(|s: Seq<char>| entry_bytes(s)));
            assert(m.last() == entry_bytes(c@[k as int]@));
            assert(out@ =~= start + m.flatten_alt());
        }
        k = k + 1;
    }
    proof {
        assert(v.subrange(0, v.len() as int) =~= v);
        v.map_values(|s: Seq<char>| entry_bytes(s)).lemma_flatten_and_flatten_alt_are_equivalent();
        assert(final(out)@ =~= old(out)@ + chain_bytes(v));
    }
}

/// Appends a pool in the hashed layout.
pub fn write_string_table(out: &mut Vec<u8>, t: &StringTable)
    requires
        storable(t@),
    ensures
        final(out)@ == old(out)@ + table_bytes(t@),
{
    let ghost v = t@;
    push_u32(out, t.buckets.len() as u32);
    let ghost start = out@;
    let mut b: usize = 0;
    while b < t.buckets.len()
        invariant
            b <= v.len(),
            v == t@,
            storable(v),
            out@ == start + v.subrange(0, b as int).map_values(|c: Seq<Seq<char>>| chain_bytes(c)).flatten_alt(),
        decreases v.len() - b,
    {
        proof {
            assert(v[b as int] == chain_view(t.buckets@[b as int]@));
            assert forall|k: int| 0 <= k < t.buckets@[b as int]@.len() implies encode_utf8((#[trigger] t.buckets@[b as int]@[k])@).len() <= 0xffff by {
                assert(v[b as int][k] == t.buckets@[b as int]@[k]@);
            }
        }
        write_chain(out, &t.buckets[b]);
        proof {
            let m = v.subrange(0, b + 1).map_values(|c: Seq<Seq<char>>| chain_bytes(c));
            assert(m.drop_last() =~= v.subrange(0, b as int).map_values(|c: Seq<Seq<char>>| chain_bytes(c)));
            assert(out@ =~= start + m.flatten_alt());
        }
        b = b + 1;
    }
    proof {
        assert(v.subrange(0, v.len() as int) =~= v);
        v.map_values(|c: Seq<Seq<char>>| chain_bytes(c)).lemma_flatten_and_flatten_alt_are_equivalent();
        assert(final(out)@ =~= old(out)@ + table_bytes(v));
    }
}

/// The bytes `x` followed by `y` stored from `a` split into the two parts.
proof fn lemma_split_at(d: Seq<u8>, a: int, x: Seq<u8>, y: Seq<u8>)
    requires
        0 <= a,
        a + x.len() + y.len() <= d.len(),
        d.subrange(a, a + x.len() + y.len()) == x + y,
    ensures
        d.subrange(a, a + x.len()) == x,
        d.subrange(a + x.len(), a + x.len() + y.len()) == y,
{
    assert(d.subrange(a, a + x.len()) =~= (x + y).subrange(0, x.len() as int));
    assert(d.subrange(a + x.len(), a + x.len() + y.len()) =~= (x + y).subrange(x.len() as int, (x.len() + y.len()) as int));
}

proof fn lemma_entry_read_back(d: Seq<u8>, pos: int, s: Seq<char>)
    requires
        0 <= pos,
        pos + entry_bytes(s).len() <= d.len(),
        d.subrange(pos, pos + entry_bytes(s).len()) == entry_bytes(s),
        encode_utf8(s).len() <= 0xffff,
    ensures
        parse_entry(d, pos, 2) == Some((s, pos + entry_bytes(s).len())),
{
    let n = encode_utf8(s).len();
    lemma_split_at(d, pos, le16(n as u16), encode_utf8(s));
    lemma_le16(n as u16, d, pos);
    vstd::utf8::encode_utf8_valid_utf8(s);
    vstd::utf8::encode_utf8_decode_utf8(s);
}

proof fn lemma_chain_read_back(d: Seq<u8>, pos: int, c: Seq<Seq<char>>)
    requires
        0 <= pos,
        forall|k: int| 0 <= k < c.len() ==> encode_utf8(#[trigger] c[k]).len() <= 0xffff,
        pos + c.map_values(|s: Seq<char>| entry_bytes(s)).flatten().len() <= d.len(),
        d.subrange(pos, pos + c.map_values(|s: Seq<char>| entry_bytes(s)).flatten().len())
            == c.map_values(|s: Seq<char>| entry_bytes(s)).flatten(),
    ensures
        parse_chain(d, pos, c.len()) == Some((c, pos + c.map_values(|s: Seq<char>| entry_bytes(s)).flatten().len())),
    decreases c.len(),
{
    let f = c.map_values(|s: Seq<char>| entry_bytes(s)).flatten();
    if c.len() == 0 {
        assert(c =~= Seq::<Seq<char>>::empty());
    } else {
        let rest = c.drop_first();
        let m = c.map_values(|s: Seq<char>| entry_bytes(s));
        assert(m.drop_first() =~= rest.map_values(|s: Seq<char>| entry_bytes(s)));
        let fr = rest.map_values(|s: Seq<char>| entry_bytes(s)).flatten();
        assert(f == entry_bytes(c[0]) + fr);
        lemma_split_at(d, pos, entry_bytes(c[0]), fr);
        lemma_entry_read_back(d, pos, c[0]);
        assert forall|k: int| 0 <= k < rest.len() implies encode_utf8(#[trigger] rest[k]).len() <= 0xffff by {
            assert(rest[k] == c[k + 1]);
        }
        lemma_chain_read_back(d, pos + entry_bytes(c[0]).len(), rest);
        assert(seq![c[0]] + rest =~= c);
    }
}

proof fn lemma_buckets_read_back(d: Seq<u8>, pos: int, t: Seq<Seq<Seq<char>>>)
    requires
        0 <= pos,
        chains_fit(t),
        pos + t.map_values(|c: Seq<Seq<char>>| chain_bytes(c)).flatten().len() <= d.len(),
        d.subrange(pos, pos + t.map_values(|c: Seq<Seq<char>>| chain_bytes(c)).flatten().len())
            == t.map_values(|c: Seq<Seq<char>>| chain_bytes(c)).flatten(),
    ensures
        parse_buckets(d, pos, t.len()) == Some((t, pos + t.map_values(|c: Seq<Seq<char>>| chain_bytes(c)).flatten().len())),
    decreases t.len(),
{
    let f = t.map_values(|c: Seq<Seq<char>>| chain_bytes(c)).flatten();
    if t.len() == 0 {
        assert(t =~= Seq::<Seq<Seq<char>>>::empty());
    } else {
        let rest = t.drop_first();
        let m = t.map_values(|c: Seq<Seq<char>>| chain_bytes(c));
        assert(m.drop_first() =~= rest.map_values(|c: Seq<Seq<char>>| chain_bytes(c)));
        let fr = rest.map_values(|c: Seq<Seq<char>>| chain_bytes(c)).flatten();
        assert(f == chain_bytes(t[0]) + fr);
        lemma_split_at(d, pos, chain_bytes(t[0]), fr);
        let entries = t[0].map_values(|s: Seq<char>| entry_bytes(s)).flatten();
        lemma_split_at(d, pos, le16(t[0].len() as u16), entries);
        assert(t[0].len() <= 0xffff);
        lemma_le16(t[0].len() as u16, d, pos);
        assert(forall|k: int| 0 <= k < t[0].len() ==> encode_utf8(#[trigger] t[0][k]).len() <= 0xffff);
        lemma_chain_read_back(d, pos + 2, t[0]);
        assert forall|b: int| 0 <= b < rest.len() implies (#[trigger] rest[b]).len() <= 0xffff
            && forall|c: int| 0 <= c < rest[b].len() ==> encode_utf8(#[trigger] rest[b][c]).len() <= 0xffff by {
            assert(rest[b] == t[b + 1]);
        }
        lemma_buckets_read_back(d, pos + chain_bytes(t[0]).len(), rest);
        assert(seq![t[0]] + rest =~= t);
    }
}

/// A pool written in the hashed layout reads back as the same pool.
pub proof fn lemma_table_round_trip(t: Seq<Seq<Seq<char>>>)
    requires
        storable(t),
        t.len() > 0,
    ensures
        parse_table(table_bytes(t)) == Some(t),
{
    let d = table_bytes(t);
    let f = t.map_values(|c: Seq<Seq<char>>| chain_bytes(c)).flatten();
    assert(d.subrange(0, d.len() as int) =~= d);
    lemma_split_at(d, 0, le32(t.len() as u32), f);
    lemma_le32(t.len() as u32, d, 0);
    lemma_buckets_read_back(d, 4, t);
}

} // verus!
