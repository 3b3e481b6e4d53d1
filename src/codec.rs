//! The stored form of a graph snapshot: a layout version, then each
//! function, every number as four little-endian bytes and every string as
//! its length and its characters' code points.
use vstd::prelude::*;
use crate::graph::{CallEdge, DataAccessPoint, DataOperation, FunctionNode};
use crate::store::{StoreError, SCHEMA_VERSION};

verus! {

/// The four little-endian bytes of `x`.
pub open spec fn enc_u32(x: u32) -> Seq<u8> {
    seq![(x & 0xff) as u8, ((x >> 8u32) & 0xff) as u8, ((x >> 16u32) & 0xff) as u8, ((x >> 24u32) & 0xff) as u8]
}

/// The number whose little-endian bytes are `b0`, `b1`, `b2`, `b3`.
pub open spec fn u32_of(b0: u8, b1: u8, b2: u8, b3: u8) -> u32 {
    (b0 as u32) | ((b1 as u32) << 8u32) | ((b2 as u32) << 16u32) | ((b3 as u32) << 24u32)
}

proof fn lemma_u32_bytes(x: u32)
    ensures
        u32_of((x & 0xff) as u8, ((x >> 8u32) & 0xff) as u8, ((x >> 16u32) & 0xff) as u8, ((x >> 24u32) & 0xff) as u8) == x,
{
    assert(((x & 0xff) as u8) as u32 == x & 0xff) by (bit_vector);
    assert((((x >> 8u32) & 0xff) as u8) as u32 == (x >> 8u32) & 0xff) by (bit_vector);
    assert((((x >> 16u32) & 0xff) as u8) as u32 == (x >> 16u32) & 0xff) by (bit_vector);
    assert((((x >> 24u32) & 0xff) as u8) as u32 == (x >> 24u32) & 0xff) by (bit_vector);
    assert(((x & 0xff) | (((x >> 8u32) & 0xff) << 8u32) | (((x >> 16u32) & 0xff) << 16u32) | (((x >> 24u32) & 0xff) << 24u32)) == x) by (bit_vector);
}

proof fn lemma_bytes_u32(b0: u8, b1: u8, b2: u8, b3: u8)
    ensures
        enc_u32(u32_of(b0, b1, b2, b3)) == seq![b0, b1, b2, b3],
{
    let x = u32_of(b0, b1, b2, b3);
    assert((x & 0xff) as u8 == b0) by (bit_vector)
        requires x == (b0 as u32) | ((b1 as u32) << 8u32) | ((b2 as u32) << 16u32) | ((b3 as u32) << 24u32);
    assert(((x >> 8u32) & 0xff) as u8 == b1) by (bit_vector)
        requires x == (b0 as u32) | ((b1 as u32) << 8u32) | ((b2 as u32) << 16u32) | ((b3 as u32) << 24u32);
    assert(((x >> 16u32) & 0xff) as u8 == b2) by (bit_vector)
        requires x == (b0 as u32) | ((b1 as u32) << 8u32) | ((b2 as u32) << 16u32) | ((b3 as u32) << 24u32);
    assert(((x >> 24u32) & 0xff) as u8 == b3) by (bit_vector)
        requires x == (b0 as u32) | ((b1 as u32) << 8u32) | ((b2 as u32) << 16u32) | ((b3 as u32) << 24u32);
    assert(enc_u32(x) =~= seq![b0, b1, b2, b3]);
}

/// Appends the bytes of `x` to `out`.
pub fn put_u32(out: &mut Vec<u8>, x: u32)
    ensures
        final(out)@ == old(out)@ + enc_u32(x),
{
    out.push((x & 0xff) as u8);
    out.push(((x >> 8u32) & 0xff) as u8);
    out.push(((x >> 16u32) & 0xff) as u8);
    out.push(((x >> 24u32) & 0xff) as u8);
    assert(final(out)@ =~= old(out)@ + enc_u32(x));
}

/// Whether `bytes` holds `e` from position `pos` on.
pub open spec fn holds_at(bytes: Seq<u8>, pos: int, e: Seq<u8>) -> bool {
    0 <= pos && pos + e.len() <= bytes.len() && bytes.subrange(pos, pos + e.len()) == e
}

/// The number stored at `pos`, and the position after it.
pub fn get_u32(bytes: &Vec<u8>, pos: usize) -> (r: Option<(u32, usize)>)
    ensures
        match r {
            Some((x, p)) => p == pos + 4 && holds_at(bytes@, pos as int, enc_u32(x)),
            None => pos + 4 > bytes@.len(),
        },
        forall|x: u32| #[trigger] holds_at(bytes@, pos as int, enc_u32(x)) ==> r == Some((x, (pos + 4) as usize)),
{
    if pos > bytes.len() || bytes.len() - pos < 4 {
        return None;
    }
    let b0 = bytes[pos];
    let b1 = bytes[pos + 1];
    let b2 = bytes[pos + 2];
    let b3 = bytes[pos + 3];
    let x = (b0 as u32) | ((b1 as u32) << 8u32) | ((b2 as u32) << 16u32) | ((b3 as u32) << 24u32);
    proof {
        lemma_bytes_u32(b0, b1, b2, b3);
        assert(bytes@.subrange(pos as int, pos + 4) =~= seq![b0, b1, b2, b3]);
        assert forall|y: u32| #[trigger] holds_at(bytes@, pos as int, enc_u32(y)) implies y == x by {
            lemma_u32_bytes(y);
            assert(enc_u32(y) == seq![b0, b1, b2, b3]);
            assert(enc_u32(y)[0] == b0 && enc_u32(y)[1] == b1 && enc_u32(y)[2] == b2 && enc_u32(y)[3] == b3);
        }
    }
    Some((x, pos + 4))
}

/// Whether `x` is the code point of a Unicode scalar value.
pub open spec fn is_scalar(x: u32) -> bool {
    x < 0xD800 || (0xE000 <= x && x <= 0x10FFFF)
}

/// Relies on `char::from_u32`: `Some` of the character with code point `x`
/// exactly when `x` is the code point of a Unicode scalar value.
#[verifier::external_body]
fn char_from_code(x: u32) -> (r: Option<char>)
    ensures
        match r {
            Some(c) => c as u32 == x,
            None => !is_scalar(x),
        },
{
    char::from_u32(x)
}

/// Relies on `String::push`: appends `c` to `s`.
#[verifier::external_body]
fn push_char(s: &mut String, c: char)
    ensures
        final(s)@ == old(s)@.push(c),
{
    s.push(c)
}

/// The eight bytes of a length: its low and its high 32 bits.
pub open spec fn enc_len(n: nat) -> Seq<u8> {
    enc_u32((n % 0x1_0000_0000) as u32) + enc_u32((n / 0x1_0000_0000) as u32)
}

/// Appends the bytes of length `n` to `out`.
pub fn put_len(out: &mut Vec<u8>, n: usize)
    ensures
        final(out)@ == old(out)@ + enc_len(n as nat),
{
    let w = n as u64;
    put_u32(out, (w % 0x1_0000_0000) as u32);
    put_u32(out, (w / 0x1_0000_0000) as u32);
    assert(final(out)@ =~= old(out)@ + enc_len(n as nat));
}

/// The length stored at `pos`, and the position after it.
pub fn get_len(bytes: &Vec<u8>, pos: usize) -> (r: Option<(usize, usize)>)
    ensures
        match r {
            Some((n, p)) => p == pos + 8 && holds_at(bytes@, pos as int, enc_len(n as nat)),
            None => true,
        },
        forall|n: usize| #[trigger] holds_at(bytes@, pos as int, enc_len(n as nat)) ==> r == Some((n, (pos + 8) as usize)),
{
    let (lo, at1) = match get_u32(bytes, pos) {
        Some(v) => v,
        None => {
            proof {
                assert forall|n: usize| #[trigger] holds_at(bytes@, pos as int, enc_len(n as nat)) implies false by {
                    assert(enc_len(n as nat).len() == 8);
                }
            }
            return None;
        },
    };
    let (hi, at2) = match get_u32(bytes, at1) {
        Some(v) => v,
        None => {
            proof {
                assert forall|n: usize| #[trigger] holds_at(bytes@, pos as int, enc_len(n as nat)) implies false by {
                    assert(enc_len(n as nat).len() == 8);
                }
            }
            return None;
        },
    };
    let w: u64 = (hi as u64) * 0x1_0000_0000 + lo as u64;
    proof {
        assert forall|n: usize| #[trigger] holds_at(bytes@, pos as int, enc_len(n as nat)) implies n as u64 == w by {
            let a = enc_u32((n as nat % 0x1_0000_0000) as u32);
            let b = enc_u32((n as nat / 0x1_0000_0000) as u32);
            assert(enc_len(n as nat) == a + b);
            assert(bytes@.subrange(pos as int, pos + 4) =~= (a + b).subrange(0, 4));
            assert((a + b).subrange(0, 4) =~= a);
            assert(holds_at(bytes@, pos as int, a));
            assert(bytes@.subrange(pos + 4, pos + 8) =~= (a + b).subrange(4, 8));
            assert((a + b).subrange(4, 8) =~= b);
            assert(holds_at(bytes@, pos + 4, b));
        }
    }
    if w > usize::MAX as u64 {
        return None;
    }
    let n = w as usize;
    proof {
        assert(enc_len(n as nat) =~= enc_u32(lo) + enc_u32(hi));
        assert(bytes@.subrange(pos as int, pos + 8) =~= bytes@.subrange(pos as int, pos + 4) + bytes@.subrange(pos + 4, pos + 8));
    }
    Some((n, at2))
}

/// The code points of `s`, four bytes each.
pub open spec fn enc_chars(s: Seq<char>) -> Seq<u8>
    decreases s.len(),
{
    if s.len() == 0 {
        Seq::empty()
    } else {
        enc_chars(s.drop_last()) + enc_u32(s.last() as u32)
    }
}

/// A string: its length, then its characters.
pub open spec fn enc_str(s: Seq<char>) -> Seq<u8> {
    enc_len(s.len()) + enc_chars(s)
}

proof fn lemma_holds_split(bytes: Seq<u8>, pos: int, a: Seq<u8>, b: Seq<u8>)
    ensures
        holds_at(bytes, pos, a + b) <==> (holds_at(bytes, pos, a) && holds_at(bytes, pos + a.len(), b)),
{
    if holds_at(bytes, pos, a + b) {
        assert(bytes.subrange(pos, pos + a.len()) =~= (a + b).subrange(0, a.len() as int));
        assert((a + b).subrange(0, a.len() as int) =~= a);
        assert(bytes.subrange(pos + a.len(), pos + a.len() + b.len()) =~= (a + b).subrange(a.len() as int, (a + b).len() as int));
        assert((a + b).subrange(a.len() as int, (a + b).len() as int) =~= b);
    }
    if holds_at(bytes, pos, a) && holds_at(bytes, pos + a.len(), b) {
        assert(bytes.subrange(pos, pos + (a + b).len()) =~= bytes.subrange(pos, pos + a.len()) + bytes.subrange(pos + a.len(), pos + a.len() + b.len()));
    }
}

proof fn lemma_enc_chars_len(s: Seq<char>)
    ensures
        enc_chars(s).len() == 4 * s.len(),
    decreases s.len(),
{
    if s.len() > 0 {
        lemma_enc_chars_len(s.drop_last());
    }
}

proof fn lemma_enc_chars_prefix(s: Seq<char>, i: int)
    requires
        0 <= i < s.len(),
    ensures
        enc_chars(s.subrange(0, i + 1)) == enc_chars(s.subrange(0, i)) + enc_u32(s[i] as u32),
{
    assert(s.subrange(0, i + 1).drop_last() =~= s.subrange(0, i));
}

proof fn lemma_enc_chars_take(s: Seq<char>, i: int)
    requires
        0 <= i <= s.len(),
    ensures
        enc_chars(s) == enc_chars(s.subrange(0, i)) + enc_chars(s).subrange(4 * i, 4 * s.len() as int),
        enc_chars(s).subrange(0, 4 * i) == enc_chars(s.subrange(0, i)),
    decreases s.len() - i,
{
    lemma_enc_chars_len(s);
    lemma_enc_chars_len(s.subrange(0, i));
    if i == s.len() {
        assert(s.subrange(0, i) =~= s);
        assert(enc_chars(s).subrange(4 * i, 4 * s.len() as int) =~= Seq::<u8>::empty());
        assert(enc_chars(s) =~= enc_chars(s.subrange(0, i)) + Seq::<u8>::empty());
        assert(enc_chars(s).subrange(0, 4 * i) =~= enc_chars(s));
    } else {
        lemma_enc_chars_take(s, i + 1);
        lemma_enc_chars_prefix(s, i);
        lemma_enc_chars_len(s.subrange(0, i + 1));
        let e = enc_chars(s);
        assert(e.subrange(0, 4 * i) =~= e.subrange(0, 4 * (i + 1)).subrange(0, 4 * i));
        assert(e.subrange(0, 4 * i) =~= enc_chars(s.subrange(0, i)));
        assert(e =~= e.subrange(0, 4 * i) + e.subrange(4 * i, 4 * s.len() as int));
    }
}

/// Appends string `s` to `out`.
pub fn put_str(out: &mut Vec<u8>, s: &String)
    ensures
        final(out)@ == old(out)@ + enc_str(s@),
{
    let n = s.as_str().unicode_len();
    put_len(out, n);
    let ghost start = out@;
    let mut i: usize = 0;
    while i < n
        invariant
            n == s@.len(),
            i <= n,
            out@ == start + enc_chars(s@.subrange(0, i as int)),
        decreases n - i,
    {
        let c = s.as_str().get_char(i);
        put_u32(out, c as u32);
        proof {
            lemma_enc_chars_prefix(s@, i as int);
        }
        i = i + 1;
    }
    assert(s@.subrange(0, n as int) =~= s@);
}

/// The string stored at `pos`, and the position after it.
pub fn get_str(bytes: &Vec<u8>, pos: usize) -> (r: Option<(String, usize)>)
    ensures
        match r {
            Some((s, p)) => p == pos + enc_str(s@).len() && holds_at(bytes@, pos as int, enc_str(s@)),
            None => true,
        },
        forall|t: Seq<char>| #[trigger] holds_at(bytes@, pos as int, enc_str(t)) ==> (r matches Some((s, p)) && s@ == t),
{
    let blen = bytes.len();
    let (n, at0) = match get_len(bytes, pos) {
        Some(v) => v,
        None => {
            proof {
                assert forall|t: Seq<char>| #[trigger] holds_at(bytes@, pos as int, enc_str(t)) implies false by {
                    lemma_holds_split(bytes@, pos as int, enc_len(t.len()), enc_chars(t));
                    assert(t.len() <= usize::MAX) by {
                        lemma_enc_chars_len(t);
                        assert(bytes@.len() == blen);
                    }
                    assert(holds_at(bytes@, pos as int, enc_len((t.len() as usize) as nat)));
                }
            }
            return None;
        },
    };
    let mut out = String::new();
    let mut p = at0;
    proof {
        assert(enc_chars(out@) =~= Seq::<u8>::empty());
        assert(bytes@.subrange(at0 as int, at0 as int) =~= Seq::<u8>::empty());
        assert forall|t: Seq<char>| #[trigger] holds_at(bytes@, pos as int, enc_str(t)) implies t.len() == n && out@ == t.subrange(0, 0) by {
            lemma_holds_split(bytes@, pos as int, enc_len(t.len()), enc_chars(t));
            lemma_enc_chars_len(t);
            assert(bytes@.len() == blen);
            assert(holds_at(bytes@, pos as int, enc_len((t.len() as usize) as nat)));
            assert(out@ =~= t.subrange(0, 0));
        }
    }
    let mut i: usize = 0;
    while i < n
        invariant
            at0 == pos + 8,
            i <= n,
            p == at0 + 4 * i,
            holds_at(bytes@, pos as int, enc_len(n as nat)),
            out@.len() == i,
            holds_at(bytes@, at0 as int, enc_chars(out@)),
            forall|t: Seq<char>| #[trigger] holds_at(bytes@, pos as int, enc_str(t)) ==> t.len() == n && out@ == t.subrange(0, i as int),
        decreases n - i,
    {
        proof {
            lemma_enc_chars_len(out@);
        }
        let (x, at1) = match get_u32(bytes, p) {
            Some(v) => v,
            None => {
                proof {
                    assert forall|t: Seq<char>| #[trigger] holds_at(bytes@, pos as int, enc_str(t)) implies false by {
                        lemma_holds_split(bytes@, pos as int, enc_len(t.len()), enc_chars(t));
                        lemma_enc_chars_len(t);
                        lemma_enc_chars_len(t.subrange(0, i + 1));
                        lemma_enc_chars_take(t, i + 1);
                    }
                }
                return None;
            },
        };
        let c = match char_from_code(x) {
            Some(c) => c,
            None => {
                proof {
                    assert forall|t: Seq<char>| #[trigger] holds_at(bytes@, pos as int, enc_str(t)) implies false by {
                        lemma_holds_split(bytes@, pos as int, enc_len(t.len()), enc_chars(t));
                        lemma_enc_chars_take(t, i as int);
                        lemma_enc_chars_take(t, i + 1);
                        lemma_enc_chars_prefix(t, i as int);
                        lemma_enc_chars_len(t.subrange(0, i as int));
                        let e = enc_chars(t);
                        lemma_holds_split(bytes@, at0 as int, enc_chars(t.subrange(0, i as int)), e.subrange(4 * i, 4 * t.len() as int));
                        lemma_holds_split(bytes@, at0 as int, enc_chars(t.subrange(0, i as int)) + enc_u32(t[i as int] as u32), e.subrange(4 * (i + 1), 4 * t.len() as int));
                        lemma_holds_split(bytes@, at0 as int, enc_chars(t.subrange(0, i as int)), enc_u32(t[i as int] as u32));
                        assert(x == t[i as int] as u32);
                        lemma_char_scalar(t[i as int]);
                    }
                }
                return None;
            },
        };
        let ghost o0 = out@;
        push_char(&mut out, c);
        proof {
            assert(out@.drop_last() == o0);
            lemma_holds_split(bytes@, at0 as int, enc_chars(o0), enc_u32(x));
            assert forall|t: Seq<char>| #[trigger] holds_at(bytes@, pos as int, enc_str(t)) implies t.len() == n && out@ == t.subrange(0, i + 1) by {
                lemma_holds_split(bytes@, pos as int, enc_len(t.len()), enc_chars(t));
                lemma_enc_chars_take(t, i as int);
                lemma_enc_chars_take(t, i + 1);
                lemma_enc_chars_prefix(t, i as int);
                lemma_enc_chars_len(t.subrange(0, i as int));
                let e = enc_chars(t);
                lemma_holds_split(bytes@, at0 as int, enc_chars(t.subrange(0, i + 1)), e.subrange(4 * (i + 1), 4 * t.len() as int));
                lemma_holds_split(bytes@, at0 as int, enc_chars(t.subrange(0, i as int)), enc_u32(t[i as int] as u32));
                assert(x == t[i as int] as u32);
                lemma_char_code_injective(c, t[i as int]);
                assert(out@ =~= t.subrange(0, i + 1));
            }
        }
        p = at1;
        i = i + 1;
    }
    proof {
        lemma_enc_chars_len(out@);
        lemma_holds_split(bytes@, pos as int, enc_len(n as nat), enc_chars(out@));
        assert forall|t: Seq<char>| #[trigger] holds_at(bytes@, pos as int, enc_str(t)) implies out@ == t by {
            assert(t.subrange(0, n as int) =~= t);
        }
    }
    Some((out, p))
}

proof fn lemma_char_code_injective(a: char, b: char)
    requires
        a as u32 == b as u32,
    ensures
        a == b,
{
}

proof fn lemma_char_scalar(c: char)
    ensures
        is_scalar(c as u32),
{
}

/// Whether `a` begins `b`.
pub open spec fn is_prefix(a: Seq<u8>, b: Seq<u8>) -> bool {
    a.len() <= b.len() && b.subrange(0, a.len() as int) == a
}

proof fn lemma_prefix_trans(a: Seq<u8>, b: Seq<u8>, c: Seq<u8>)
    requires
        is_prefix(a, b),
        is_prefix(b, c),
    ensures
        is_prefix(a, c),
{
    assert(c.subrange(0, a.len() as int) =~= c.subrange(0, b.len() as int).subrange(0, a.len() as int));
}

proof fn lemma_str_item_nonempty(s: String)
    ensures
        str_item(s).len() > 0,
{
}

/// A string of a list.
pub open spec fn str_item(s: String) -> Seq<u8> {
    enc_str(s@)
}

/// Whether two strings hold the same characters.
pub open spec fn same_string(a: String, b: String) -> bool {
    a@ == b@
}

proof fn lemma_same_string(a: String, b: String)
    requires
        same_string(a, b),
    ensures
        str_item(a) == str_item(b),
{
}

fn put_string(out: &mut Vec<u8>, s: &String)
    ensures
        final(out)@ == old(out)@ + str_item(*s),
{
    put_str(out, s)
}

fn get_string(bytes: &Vec<u8>, pos: usize) -> (r: Option<(String, usize)>)
    ensures
        match r {
            Some((s, p)) => p == pos + str_item(s).len() && holds_at(bytes@, pos as int, str_item(s)),
            None => true,
        },
        forall|t: String| #[trigger] holds_at(bytes@, pos as int, str_item(t)) ==> (r matches Some((s, p)) && same_string(s, t)),
{
    let r = get_str(bytes, pos);
    proof {
        assert forall|t: String| #[trigger] holds_at(bytes@, pos as int, str_item(t)) implies (r matches Some((s, p)) && same_string(s, t)) by {
            assert(holds_at(bytes@, pos as int, enc_str(t@)));
        }
    }
    r
}

/// The encodings of the items of `v`, one after another.
pub open spec fn cat_strs(v: Seq<String>) -> Seq<u8>
    decreases v.len(),
{
    if v.len() == 0 {
        Seq::empty()
    } else {
        cat_strs(v.drop_last()) + str_item(v.last())
    }
}

/// A list: its length, then its items.
pub open spec fn enc_strs(v: Seq<String>) -> Seq<u8> {
    enc_len(v.len()) + cat_strs(v)
}

/// Whether two lists hold the same values, item by item.
pub open spec fn same_strs(a: Seq<String>, b: Seq<String>) -> bool {
    a.len() == b.len() && forall|i: int| 0 <= i < a.len() ==> #[trigger] same_string(a[i], b[i])
}

proof fn lemma_cat_strs_step(v: Seq<String>, i: int)
    requires
        0 <= i < v.len(),
    ensures
        cat_strs(v.subrange(0, i + 1)) == cat_strs(v.subrange(0, i)) + str_item(v[i]),
{
    assert(v.subrange(0, i + 1).drop_last() =~= v.subrange(0, i));
}

proof fn lemma_cat_strs_prefix(v: Seq<String>, i: int)
    requires
        0 <= i <= v.len(),
    ensures
        is_prefix(cat_strs(v.subrange(0, i)), cat_strs(v)),
    decreases v.len() - i,
{
    if i == v.len() {
        assert(v.subrange(0, i) =~= v);
        assert(cat_strs(v).subrange(0, cat_strs(v).len() as int) =~= cat_strs(v));
    } else {
        lemma_cat_strs_prefix(v, i + 1);
        lemma_cat_strs_step(v, i);
        assert(cat_strs(v.subrange(0, i + 1)).subrange(0, cat_strs(v.subrange(0, i)).len() as int) =~= cat_strs(v.subrange(0, i)));
        lemma_prefix_trans(cat_strs(v.subrange(0, i)), cat_strs(v.subrange(0, i + 1)), cat_strs(v));
    }
}

proof fn lemma_cat_strs_same(a: Seq<String>, b: Seq<String>)
    requires
        same_strs(a, b),
    ensures
        cat_strs(a) == cat_strs(b),
    decreases a.len(),
{
    if a.len() > 0 {
        assert(same_strs(a.drop_last(), b.drop_last())) by {
            assert forall|i: int| 0 <= i < a.len() - 1 implies #[trigger] same_string(a.drop_last()[i], b.drop_last()[i]) by {
                assert(same_string(a[i], b[i]));
            }
        }
        lemma_cat_strs_same(a.drop_last(), b.drop_last());
        assert(same_string(a[a.len() - 1], b[b.len() - 1]));
        lemma_same_string(a.last(), b.last());
    }
}

/// Appends list `v` to `out`.
pub fn put_strs(out: &mut Vec<u8>, v: &Vec<String>)
    ensures
        final(out)@ == old(out)@ + enc_strs(v@),
{
    put_len(out, v.len());
    let ghost start = out@;
    let mut i: usize = 0;
    while i < v.len()
        invariant
            i <= v@.len(),
            out@ == start + cat_strs(v@.subrange(0, i as int)),
        decreases v@.len() - i,
    {
        put_string(out, &v[i]);
        proof {
            lemma_cat_strs_step(v@, i as int);
        }
        i = i + 1;
    }
    assert(v@.subrange(0, v@.len() as int) =~= v@);
}

/// The list stored at `pos`, and the position after it.
pub fn get_strs(bytes: &Vec<u8>, pos: usize) -> (r: Option<(Vec<String>, usize)>)
    ensures
        match r {
            Some((v, p)) => p == pos + enc_strs(v@).len() && holds_at(bytes@, pos as int, enc_strs(v@)),
            None => true,
        },
        forall|t: Seq<String>| #[trigger] holds_at(bytes@, pos as int, enc_strs(t)) ==> (r matches Some((v, p)) && same_strs(v@, t)),
{
    let blen = bytes.len();
    let (n, at0) = match get_len(bytes, pos) {
        Some(v) => v,
        None => {
            proof {
                assert forall|t: Seq<String>| #[trigger] holds_at(bytes@, pos as int, enc_strs(t)) implies false by {
                    lemma_holds_split(bytes@, pos as int, enc_len(t.len()), cat_strs(t));
                    lemma_cat_strs_len(t);
                    assert(bytes@.len() == blen);
                    assert(holds_at(bytes@, pos as int, enc_len((t.len() as usize) as nat)));
                }
            }
            return None;
        },
    };
    let mut out: Vec<String> = Vec::new();
    let mut p = at0;
    proof {
        assert(cat_strs(out@) =~= Seq::<u8>::empty());
        assert(bytes@.subrange(at0 as int, at0 as int) =~= Seq::<u8>::empty());
        assert forall|t: Seq<String>| #[trigger] holds_at(bytes@, pos as int, enc_strs(t)) implies t.len() == n && same_strs(out@, t.subrange(0, 0)) by {
            lemma_holds_split(bytes@, pos as int, enc_len(t.len()), cat_strs(t));
            lemma_cat_strs_len(t);
            assert(bytes@.len() == blen);
            assert(holds_at(bytes@, pos as int, enc_len((t.len() as usize) as nat)));
        }
    }
    let mut i: usize = 0;
    while i < n
        invariant
            at0 == pos + 8,
            i <= n,
            bytes@.len() == blen,
            p == at0 + cat_strs(out@).len(),
            holds_at(bytes@, pos as int, enc_len(n as nat)),
            out@.len() == i,
            holds_at(bytes@, at0 as int, cat_strs(out@)),
            forall|t: Seq<String>| #[trigger] holds_at(bytes@, pos as int, enc_strs(t)) ==> t.len() == n && same_strs(out@, t.subrange(0, i as int)),
        decreases n - i,
    {
        let ghost o0 = out@;
        let (x, at1) = match get_string(bytes, p) {
            Some(v) => v,
            None => {
                proof {
                    assert forall|t: Seq<String>| #[trigger] holds_at(bytes@, pos as int, enc_strs(t)) implies false by {
                        lemma_strs_item_at(bytes@, pos as int, at0 as int, t, o0, i as int);
                    }
                }
                return None;
            },
        };
        out.push(x);
        proof {
            assert(out@.drop_last() =~= o0);
            lemma_holds_split(bytes@, at0 as int, cat_strs(o0), str_item(x));
            assert forall|t: Seq<String>| #[trigger] holds_at(bytes@, pos as int, enc_strs(t)) implies t.len() == n && same_strs(out@, t.subrange(0, i + 1)) by {
                lemma_strs_item_at(bytes@, pos as int, at0 as int, t, o0, i as int);
                assert forall|j: int| 0 <= j < i + 1 implies #[trigger] same_string(out@[j], t.subrange(0, i + 1)[j]) by {
                    if j < i {
                        assert(out@[j] == o0[j]);
                        assert(same_string(o0[j], t.subrange(0, i as int)[j]));
                    }
                }
            }
        }
        p = at1;
        i = i + 1;
    }
    proof {
        lemma_holds_split(bytes@, pos as int, enc_len(n as nat), cat_strs(out@));
        assert forall|t: Seq<String>| #[trigger] holds_at(bytes@, pos as int, enc_strs(t)) implies same_strs(out@, t) by {
            assert(t.subrange(0, n as int) =~= t);
        }
    }
    Some((out, p))
}

proof fn lemma_cat_strs_len(t: Seq<String>)
    ensures
        cat_strs(t).len() >= t.len(),
    decreases t.len(),
{
    if t.len() > 0 {
        lemma_cat_strs_len(t.drop_last());
        lemma_str_item_nonempty(t.last());
    }
}

/// Where the list `t` is stored at `pos` and `o` holds its first `i` items,
/// item `i` of `t` is stored right after them.
proof fn lemma_strs_item_at(bytes: Seq<u8>, pos: int, at0: int, t: Seq<String>, o: Seq<String>, i: int)
    requires
        holds_at(bytes, pos, enc_strs(t)),
        at0 == pos + 8,
        0 <= i,
        t.len() > i,
        same_strs(o, t.subrange(0, i)),
    ensures
        holds_at(bytes, at0 + cat_strs(o).len(), str_item(t[i])),
{
    lemma_holds_split(bytes, pos, enc_len(t.len()), cat_strs(t));
    lemma_cat_strs_prefix(t, i + 1);
    lemma_cat_strs_step(t, i);
    lemma_cat_strs_same(o, t.subrange(0, i));
    let pre = cat_strs(t.subrange(0, i + 1));
    lemma_holds_split(bytes, at0, pre, cat_strs(t).subrange(pre.len() as int, cat_strs(t).len() as int));
    assert(cat_strs(t) =~= pre + cat_strs(t).subrange(pre.len() as int, cat_strs(t).len() as int));
    lemma_holds_split(bytes, at0, cat_strs(t.subrange(0, i)), str_item(t[i]));
}

/// A flag: one byte, 1 or 0.
pub open spec fn enc_bool(b: bool) -> Seq<u8> {
    seq![if b { 1u8 } else { 0u8 }]
}

fn put_bool(out: &mut Vec<u8>, b: bool)
    ensures
        final(out)@ == old(out)@ + enc_bool(b),
{
    out.push(if b { 1u8 } else { 0u8 });
    assert(final(out)@ =~= old(out)@ + enc_bool(b));
}

fn get_bool(bytes: &Vec<u8>, pos: usize) -> (r: Option<(bool, usize)>)
    ensures
        match r {
            Some((b, p)) => p == pos + 1 && holds_at(bytes@, pos as int, enc_bool(b)),
            None => true,
        },
        forall|b: bool| #[trigger] holds_at(bytes@, pos as int, enc_bool(b)) ==> r == Some((b, (pos + 1) as usize)),
{
    if pos >= bytes.len() {
        return None;
    }
    let x = bytes[pos];
    proof {
        assert forall|b: bool| #[trigger] holds_at(bytes@, pos as int, enc_bool(b)) implies x == (if b { 1u8 } else { 0u8 }) by {
            assert(bytes@.subrange(pos as int, pos + 1)[0] == x);
        }
        assert(bytes@.subrange(pos as int, pos + 1) =~= seq![x]);
    }
    if x == 0 {
        Some((false, pos + 1))
    } else if x == 1 {
        Some((true, pos + 1))
    } else {
        None
    }
}

/// An operation: one byte, 0 for a read, 1 for a write, 2 for a delete.
pub open spec fn enc_op(op: DataOperation) -> Seq<u8> {
    seq![
        match op {
            DataOperation::Read => 0u8,
            DataOperation::Write => 1u8,
            DataOperation::Delete => 2u8,
        },
    ]
}

fn put_op(out: &mut Vec<u8>, op: DataOperation)
    ensures
        final(out)@ == old(out)@ + enc_op(op),
{
    out.push(
        match op {
            DataOperation::Read => 0u8,
            DataOperation::Write => 1u8,
            DataOperation::Delete => 2u8,
        },
    );
    assert(final(out)@ =~= old(out)@ + enc_op(op));
}

fn get_op(bytes: &Vec<u8>, pos: usize) -> (r: Option<(DataOperation, usize)>)
    ensures
        match r {
            Some((op, p)) => p == pos + 1 && holds_at(bytes@, pos as int, enc_op(op)),
            None => true,
        },
        forall|op: DataOperation| #[trigger] holds_at(bytes@, pos as int, enc_op(op)) ==> r == Some((op, (pos + 1) as usize)),
{
    if pos >= bytes.len() {
        return None;
    }
    let x = bytes[pos];
    proof {
        assert forall|op: DataOperation| #[trigger] holds_at(bytes@, pos as int, enc_op(op)) implies x == enc_op(op)[0] by {
            assert(bytes@.subrange(pos as int, pos + 1)[0] == x);
        }
        assert(bytes@.subrange(pos as int, pos + 1) =~= seq![x]);
    }
    if x == 0 {
        Some((DataOperation::Read, pos + 1))
    } else if x == 1 {
        Some((DataOperation::Write, pos + 1))
    } else if x == 2 {
        Some((DataOperation::Delete, pos + 1))
    } else {
        None
    }
}

/// An optional string: a flag, then the string if there is one.
pub open spec fn enc_opt_str(o: Option<String>) -> Seq<u8> {
    match o {
        Some(s) => enc_bool(true) + enc_str(s@),
        None => enc_bool(false),
    }
}

/// Whether two optional strings hold the same characters.
pub open spec fn same_opt(a: Option<String>, b: Option<String>) -> bool {
    match (a, b) {
        (Some(x), Some(y)) => x@ == y@,
        (None, None) => true,
        _ => false,
    }
}

fn put_opt_str(out: &mut Vec<u8>, o: &Option<String>)
    ensures
        final(out)@ == old(out)@ + enc_opt_str(*o),
{
    match o {
        Some(s) => {
            put_bool(out, true);
            put_str(out, s);
            assert(final(out)@ =~= old(out)@ + enc_opt_str(*o));
        },
        None => {
            put_bool(out, false);
        },
    }
}

fn get_opt_str(bytes: &Vec<u8>, pos: usize) -> (r: Option<(Option<String>, usize)>)
    ensures
        match r {
            Some((o, p)) => p == pos + enc_opt_str(o).len() && holds_at(bytes@, pos as int, enc_opt_str(o)),
            None => true,
        },
        forall|t: Option<String>| #[trigger] holds_at(bytes@, pos as int, enc_opt_str(t)) ==> (r matches Some((o, p)) && same_opt(o, t)),
{
    let (flag, at1) = match get_bool(bytes, pos) {
        Some(v) => v,
        None => {
            proof {
                assert forall|t: Option<String>| #[trigger] holds_at(bytes@, pos as int, enc_opt_str(t)) implies false by {
                    if let Some(x) = t {
                        lemma_holds_split(bytes@, pos as int, enc_bool(true), enc_str(x@));
                    }
                }
            }
            return None;
        },
    };
    if !flag {
        proof {
            assert forall|t: Option<String>| #[trigger] holds_at(bytes@, pos as int, enc_opt_str(t)) implies t is None by {
                if let Some(x) = t {
                    lemma_holds_split(bytes@, pos as int, enc_bool(true), enc_str(x@));
                }
            }
        }
        return Some((None, at1));
    }
    match get_str(bytes, at1) {
        Some((s, at2)) => {
            proof {
                lemma_holds_split(bytes@, pos as int, enc_bool(true), enc_str(s@));
                assert forall|t: Option<String>| #[trigger] holds_at(bytes@, pos as int, enc_opt_str(t)) implies same_opt(Some(s), t) by {
                    if let Some(x) = t {
                        lemma_holds_split(bytes@, pos as int, enc_bool(true), enc_str(x@));
                    }
                }
            }
            Some((Some(s), at2))
        },
        None => {
            proof {
                assert forall|t: Option<String>| #[trigger] holds_at(bytes@, pos as int, enc_opt_str(t)) implies false by {
                    if let Some(x) = t {
                        lemma_holds_split(bytes@, pos as int, enc_bool(true), enc_str(x@));
                    }
                }
            }
            None
        },
    }
}

/// A call edge: callee, flag, candidates, line.
pub open spec fn edge_item(e: CallEdge) -> Seq<u8> {
    enc_str(e.callee_name@) + enc_bool(e.resolved) + enc_strs(e.resolved_candidates@) + enc_u32(e.line)
}

/// Whether two call edges hold the same values.
pub open spec fn same_edge(a: CallEdge, b: CallEdge) -> bool {
    &&& a.callee_name@ == b.callee_name@
    &&& a.resolved == b.resolved
    &&& same_strs(a.resolved_candidates@, b.resolved_candidates@)
    &&& a.line == b.line
}

proof fn lemma_same_edge(a: CallEdge, b: CallEdge)
    requires
        same_edge(a, b),
    ensures
        edge_item(a) == edge_item(b),
{
    lemma_cat_strs_same(a.resolved_candidates@, b.resolved_candidates@);
}

proof fn lemma_edge_item_nonempty(e: CallEdge)
    ensures
        edge_item(e).len() > 0,
{
}

fn put_edge(out: &mut Vec<u8>, e: &CallEdge)
    ensures
        final(out)@ == old(out)@ + edge_item(*e),
{
    put_str(out, &e.callee_name);
    put_bool(out, e.resolved);
    put_strs(out, &e.resolved_candidates);
    put_u32(out, e.line);
    assert(final(out)@ =~= old(out)@ + edge_item(*e));
}

proof fn lemma_edge_split(bytes: Seq<u8>, pos: int, t: CallEdge)
    requires
        holds_at(bytes, pos, edge_item(t)),
    ensures
        holds_at(bytes, pos, enc_str(t.callee_name@)),
        holds_at(bytes, pos + enc_str(t.callee_name@).len(), enc_bool(t.resolved)),
        holds_at(bytes, pos + enc_str(t.callee_name@).len() + 1, enc_strs(t.resolved_candidates@)),
        holds_at(bytes, pos + enc_str(t.callee_name@).len() + 1 + enc_strs(t.resolved_candidates@).len(), enc_u32(t.line)),
{
    let a = enc_str(t.callee_name@);
    let b = enc_bool(t.resolved);
    let c = enc_strs(t.resolved_candidates@);
    let d = enc_u32(t.line);
    lemma_holds_split(bytes, pos, a + b + c, d);
    lemma_holds_split(bytes, pos, a + b, c);
    lemma_holds_split(bytes, pos, a, b);
}

fn get_edge(bytes: &Vec<u8>, pos: usize) -> (r: Option<(CallEdge, usize)>)
    ensures
        match r {
            Some((e, p)) => p == pos + edge_item(e).len() && holds_at(bytes@, pos as int, edge_item(e)),
            None => true,
        },
        forall|t: CallEdge| #[trigger] holds_at(bytes@, pos as int, edge_item(t)) ==> (r matches Some((e, p)) && same_edge(e, t)),
{
    let (callee_name, at1) = match get_str(bytes, pos) {
        Some(v) => v,
        None => {
            proof {
                assert forall|t: CallEdge| #[trigger] holds_at(bytes@, pos as int, edge_item(t)) implies false by {
                    lemma_edge_split(bytes@, pos as int, t);
                }
            }
            return None;
        },
    };
    let (resolved, at2) = match get_bool(bytes, at1) {
        Some(v) => v,
        None => {
            proof {
                assert forall|t: CallEdge| #[trigger] holds_at(bytes@, pos as int, edge_item(t)) implies false by {
                    lemma_edge_split(bytes@, pos as int, t);
                }
            }
            return None;
        },
    };
    let (resolved_candidates, at3) = match get_strs(bytes, at2) {
        Some(v) => v,
        None => {
            proof {
                assert forall|t: CallEdge| #[trigger] holds_at(bytes@, pos as int, edge_item(t)) implies false by {
                    lemma_edge_split(bytes@, pos as int, t);
                }
            }
            return None;
        },
    };
    let (line, at4) = match get_u32(bytes, at3) {
        Some(v) => v,
        None => {
            proof {
                assert forall|t: CallEdge| #[trigger] holds_at(bytes@, pos as int, edge_item(t)) implies false by {
                    lemma_edge_split(bytes@, pos as int, t);
                    lemma_cat_strs_same(resolved_candidates@, t.resolved_candidates@);
                }
            }
            return None;
        },
    };
    let e = CallEdge { callee_name, resolved, resolved_candidates, line };
    proof {
        let a = enc_str(e.callee_name@);
        let b = enc_bool(e.resolved);
        let c = enc_strs(e.resolved_candidates@);
        let d = enc_u32(e.line);
        lemma_holds_split(bytes@, pos as int, a, b);
        lemma_holds_split(bytes@, pos as int, a + b, c);
        lemma_holds_split(bytes@, pos as int, a + b + c, d);
        assert forall|t: CallEdge| #[trigger] holds_at(bytes@, pos as int, edge_item(t)) implies same_edge(e, t) by {
            lemma_edge_split(bytes@, pos as int, t);
            lemma_cat_strs_same(e.resolved_candidates@, t.resolved_candidates@);
        }
    }
    Some((e, at4))
}

/// The encodings of the items of `v`, one after another.
pub open spec fn cat_edges(v: Seq<CallEdge>) -> Seq<u8>
    decreases v.len(),
{
    if v.len() == 0 {
        Seq::empty()
    } else {
        cat_edges(v.drop_last()) + edge_item(v.last())
    }
}

/// A list: its length, then its items.
pub open spec fn enc_edges(v: Seq<CallEdge>) -> Seq<u8> {
    enc_len(v.len()) + cat_edges(v)
}

/// Whether two lists hold the same values, item by item.
pub open spec fn same_edges(a: Seq<CallEdge>, b: Seq<CallEdge>) -> bool {
    a.len() == b.len() && forall|i: int| 0 <= i < a.len() ==> #[trigger] same_edge(a[i], b[i])
}

proof fn lemma_cat_edges_step(v: Seq<CallEdge>, i: int)
    requires
        0 <= i < v.len(),
    ensures
        cat_edges(v.subrange(0, i + 1)) == cat_edges(v.subrange(0, i)) + edge_item(v[i]),
{
    assert(v.subrange(0, i + 1).drop_last() =~= v.subrange(0, i));
}

proof fn lemma_cat_edges_prefix(v: Seq<CallEdge>, i: int)
    requires
        0 <= i <= v.len(),
    ensures
        is_prefix(cat_edges(v.subrange(0, i)), cat_edges(v)),
    decreases v.len() - i,
{
    if i == v.len() {
        assert(v.subrange(0, i) =~= v);
        assert(cat_edges(v).subrange(0, cat_edges(v).len() as int) =~= cat_edges(v));
    } else {
        lemma_cat_edges_prefix(v, i + 1);
        lemma_cat_edges_step(v, i);
        assert(cat_edges(v.subrange(0, i + 1)).subrange(0, cat_edges(v.subrange(0, i)).len() as int) =~= cat_edges(v.subrange(0, i)));
        lemma_prefix_trans(cat_edges(v.subrange(0, i)), cat_edges(v.subrange(0, i + 1)), cat_edges(v));
    }
}

proof fn lemma_cat_edges_same(a: Seq<CallEdge>, b: Seq<CallEdge>)
    requires
        same_edges(a, b),
    ensures
        cat_edges(a) == cat_edges(b),
    decreases a.len(),
{
    if a.len() > 0 {
        assert(same_edges(a.drop_last(), b.drop_last())) by {
            assert forall|i: int| 0 <= i < a.len() - 1 implies #[trigger] same_edge(a.drop_last()[i], b.drop_last()[i]) by {
                assert(same_edge(a[i], b[i]));
            }
        }
        lemma_cat_edges_same(a.drop_last(), b.drop_last());
        assert(same_edge(a[a.len() - 1], b[b.len() - 1]));
        lemma_same_edge(a.last(), b.last());
    }
}

/// Appends list `v` to `out`.
pub fn put_edges(out: &mut Vec<u8>, v: &Vec<CallEdge>)
    ensures
        final(out)@ == old(out)@ + enc_edges(v@),
{
    put_len(out, v.len());
    let ghost start = out@;
    let mut i: usize = 0;
    while i < v.len()
        invariant
            i <= v@.len(),
            out@ == start + cat_edges(v@.subrange(0, i as int)),
        decreases v@.len() - i,
    {
        put_edge(out, &v[i]);
        proof {
            lemma_cat_edges_step(v@, i as int);
        }
        i = i + 1;
    }
    assert(v@.subrange(0, v@.len() as int) =~= v@);
}

/// The list stored at `pos`, and the position after it.
pub fn get_edges(bytes: &Vec<u8>, pos: usize) -> (r: Option<(Vec<CallEdge>, usize)>)
    ensures
        match r {
            Some((v, p)) => p == pos + enc_edges(v@).len() && holds_at(bytes@, pos as int, enc_edges(v@)),
            None => true,
        },
        forall|t: Seq<CallEdge>| #[trigger] holds_at(bytes@, pos as int, enc_edges(t)) ==> (r matches Some((v, p)) && same_edges(v@, t)),
{
    let blen = bytes.len();
    let (n, at0) = match get_len(bytes, pos) {
        Some(v) => v,
        None => {
            proof {
                assert forall|t: Seq<CallEdge>| #[trigger] holds_at(bytes@, pos as int, enc_edges(t)) implies false by {
                    lemma_holds_split(bytes@, pos as int, enc_len(t.len()), cat_edges(t));
                    lemma_cat_edges_len(t);
                    assert(bytes@.len() == blen);
                    assert(holds_at(bytes@, pos as int, enc_len((t.len() as usize) as nat)));
                }
            }
            return None;
        },
    };
    let mut out: Vec<CallEdge> = Vec::new();
    let mut p = at0;
    proof {
        assert(cat_edges(out@) =~= Seq::<u8>::empty());
        assert(bytes@.subrange(at0 as int, at0 as int) =~= Seq::<u8>::empty());
        assert forall|t: Seq<CallEdge>| #[trigger] holds_at(bytes@, pos as int, enc_edges(t)) implies t.len() == n && same_edges(out@, t.subrange(0, 0)) by {
            lemma_holds_split(bytes@, pos as int, enc_len(t.len()), cat_edges(t));
            lemma_cat_edges_len(t);
            assert(bytes@.len() == blen);
            assert(holds_at(bytes@, pos as int, enc_len((t.len() as usize) as nat)));
        }
    }
    let mut i: usize = 0;
    while i < n
        invariant
            at0 == pos + 8,
            i <= n,
            bytes@.len() == blen,
            p == at0 + cat_edges(out@).len(),
            holds_at(bytes@, pos as int, enc_len(n as nat)),
            out@.len() == i,
            holds_at(bytes@, at0 as int, cat_edges(out@)),
            forall|t: Seq<CallEdge>| #[trigger] holds_at(bytes@, pos as int, enc_edges(t)) ==> t.len() == n && same_edges(out@, t.subrange(0, i as int)),
        decreases n - i,
    {
        let ghost o0 = out@;
        let (x, at1) = match get_edge(bytes, p) {
            Some(v) => v,
            None => {
                proof {
                    assert forall|t: Seq<CallEdge>| #[trigger] holds_at(bytes@, pos as int, enc_edges(t)) implies false by {
                        lemma_edges_item_at(bytes@, pos as int, at0 as int, t, o0, i as int);
                    }
                }
                return None;
            },
        };
        out.push(x);
        proof {
            assert(out@.drop_last() =~= o0);
            lemma_holds_split(bytes@, at0 as int, cat_edges(o0), edge_item(x));
            assert forall|t: Seq<CallEdge>| #[trigger] holds_at(bytes@, pos as int, enc_edges(t)) implies t.len() == n && same_edges(out@, t.subrange(0, i + 1)) by {
                lemma_edges_item_at(bytes@, pos as int, at0 as int, t, o0, i as int);
                assert forall|j: int| 0 <= j < i + 1 implies #[trigger] same_edge(out@[j], t.subrange(0, i + 1)[j]) by {
                    if j < i {
                        assert(out@[j] == o0[j]);
                        assert(same_edge(o0[j], t.subrange(0, i as int)[j]));
                    }
                }
            }
        }
        p = at1;
        i = i + 1;
    }
    proof {
        lemma_holds_split(bytes@, pos as int, enc_len(n as nat), cat_edges(out@));
        assert forall|t: Seq<CallEdge>| #[trigger] holds_at(bytes@, pos as int, enc_edges(t)) implies same_edges(out@, t) by {
            assert(t.subrange(0, n as int) =~= t);
        }
    }
    Some((out, p))
}

proof fn lemma_cat_edges_len(t: Seq<CallEdge>)
    ensures
        cat_edges(t).len() >= t.len(),
    decreases t.len(),
{
    if t.len() > 0 {
        lemma_cat_edges_len(t.drop_last());
        lemma_edge_item_nonempty(t.last());
    }
}

/// Where the list `t` is stored at `pos` and `o` holds its first `i` items,
/// item `i` of `t` is stored right after them.
proof fn lemma_edges_item_at(bytes: Seq<u8>, pos: int, at0: int, t: Seq<CallEdge>, o: Seq<CallEdge>, i: int)
    requires
        holds_at(bytes, pos, enc_edges(t)),
        at0 == pos + 8,
        0 <= i,
        t.len() > i,
        same_edges(o, t.subrange(0, i)),
    ensures
        holds_at(bytes, at0 + cat_edges(o).len(), edge_item(t[i])),
{
    lemma_holds_split(bytes, pos, enc_len(t.len()), cat_edges(t));
    lemma_cat_edges_prefix(t, i + 1);
    lemma_cat_edges_step(t, i);
    lemma_cat_edges_same(o, t.subrange(0, i));
    let pre = cat_edges(t.subrange(0, i + 1));
    lemma_holds_split(bytes, at0, pre, cat_edges(t).subrange(pre.len() as int, cat_edges(t).len() as int));
    assert(cat_edges(t) =~= pre + cat_edges(t).subrange(pre.len() as int, cat_edges(t).len() as int));
    lemma_holds_split(bytes, at0, cat_edges(t.subrange(0, i)), edge_item(t[i]));
}

/// A confidence: four bytes, at most `0xFFFF`.
pub open spec fn enc_conf(c: u16) -> Seq<u8> {
    enc_u32(c as u32)
}

fn put_conf(out: &mut Vec<u8>, c: u16)
    ensures
        final(out)@ == old(out)@ + enc_conf(c),
{
    put_u32(out, c as u32)
}

fn get_conf(bytes: &Vec<u8>, pos: usize) -> (r: Option<(u16, usize)>)
    ensures
        match r {
            Some((c, p)) => p == pos + 4 && holds_at(bytes@, pos as int, enc_conf(c)),
            None => true,
        },
        forall|c: u16| #[trigger] holds_at(bytes@, pos as int, enc_conf(c)) ==> r == Some((c, (pos + 4) as usize)),
{
    match get_u32(bytes, pos) {
        Some((x, p)) => {
            if x > 0xFFFF {
                return None;
            }
            Some((x as u16, p))
        },
        None => None,
    }
}

proof fn lemma_same_opt(a: Option<String>, b: Option<String>)
    requires
        same_opt(a, b),
    ensures
        enc_opt_str(a) == enc_opt_str(b),
{
}

/// A data-access point: table, operation, fields, file, line, confidence, framework.
#[verifier::opaque]
pub open spec fn point_item(e: DataAccessPoint) -> Seq<u8> {
    enc_str(e.table@) + enc_op(e.operation) + enc_strs(e.fields@) + enc_str(e.file@) + enc_u32(e.line) + enc_conf(e.confidence) + enc_opt_str(e.framework)
}

proof fn lemma_point_item_def(e: DataAccessPoint)
    ensures
        point_item(e) == enc_str(e.table@) + enc_op(e.operation) + enc_strs(e.fields@) + enc_str(e.file@) + enc_u32(e.line) + enc_conf(e.confidence) + enc_opt_str(e.framework),
{
    reveal(point_item);
}

/// Whether two access points hold the same values.
pub open spec fn same_point(a: DataAccessPoint, b: DataAccessPoint) -> bool {
    &&& a.table@ == b.table@
    &&& a.operation == b.operation
    &&& same_strs(a.fields@, b.fields@)
    &&& a.file@ == b.file@
    &&& a.line == b.line
    &&& a.confidence == b.confidence
    &&& same_opt(a.framework, b.framework)
}

proof fn lemma_same_point(a: DataAccessPoint, b: DataAccessPoint)
    requires
        same_point(a, b),
    ensures
        point_item(a) == point_item(b),
{
    reveal(point_item);
    lemma_cat_strs_same(a.fields@, b.fields@);
    lemma_same_opt(a.framework, b.framework);
}

proof fn lemma_point_item_nonempty(e: DataAccessPoint)
    ensures
        point_item(e).len() > 0,
{
    reveal(point_item);
}

fn put_point(out: &mut Vec<u8>, e: &DataAccessPoint)
    ensures
        final(out)@ == old(out)@ + point_item(*e),
{
    put_str(out, &e.table);
    put_op(out, e.operation);
    put_strs(out, &e.fields);
    put_str(out, &e.file);
    put_u32(out, e.line);
    put_conf(out, e.confidence);
    put_opt_str(out, &e.framework);
    proof {
        lemma_point_item_def(*e);
    }
    assert(final(out)@ =~= old(out)@ + point_item(*e));
}

proof fn lemma_point_split(bytes: Seq<u8>, pos: int, t: DataAccessPoint)
    requires
        holds_at(bytes, pos, point_item(t)),
    ensures
        holds_at(bytes, pos, enc_str(t.table@)),
        holds_at(bytes, pos + enc_str(t.table@).len(), enc_op(t.operation)),
        holds_at(bytes, pos + enc_str(t.table@).len() + enc_op(t.operation).len(), enc_strs(t.fields@)),
        holds_at(bytes, pos + enc_str(t.table@).len() + enc_op(t.operation).len() + enc_strs(t.fields@).len(), enc_str(t.file@)),
        holds_at(bytes, pos + enc_str(t.table@).len() + enc_op(t.operation).len() + enc_strs(t.fields@).len() + enc_str(t.file@).len(), enc_u32(t.line)),
        holds_at(bytes, pos + enc_str(t.table@).len() + enc_op(t.operation).len() + enc_strs(t.fields@).len() + enc_str(t.file@).len() + enc_u32(t.line).len(), enc_conf(t.confidence)),
        holds_at(bytes, pos + enc_str(t.table@).len() + enc_op(t.operation).len() + enc_strs(t.fields@).len() + enc_str(t.file@).len() + enc_u32(t.line).len() + enc_conf(t.confidence).len(), enc_opt_str(t.framework)),
{
    reveal(point_item);
    lemma_holds_split(bytes, pos, enc_str(t.table@) + enc_op(t.operation) + enc_strs(t.fields@) + enc_str(t.file@) + enc_u32(t.line) + enc_conf(t.confidence), enc_opt_str(t.framework));
    lemma_holds_split(bytes, pos, enc_str(t.table@) + enc_op(t.operation) + enc_strs(t.fields@) + enc_str(t.file@) + enc_u32(t.line), enc_conf(t.confidence));
    lemma_holds_split(bytes, pos, enc_str(t.table@) + enc_op(t.operation) + enc_strs(t.fields@) + enc_str(t.file@), enc_u32(t.line));
    lemma_holds_split(bytes, pos, enc_str(t.table@) + enc_op(t.operation) + enc_strs(t.fields@), enc_str(t.file@));
    lemma_holds_split(bytes, pos, enc_str(t.table@) + enc_op(t.operation), enc_strs(t.fields@));
    lemma_holds_split(bytes, pos, enc_str(t.table@), enc_op(t.operation));
}

#[verifier::rlimit(100)]
fn get_point(bytes: &Vec<u8>, pos: usize) -> (r: Option<(DataAccessPoint, usize)>)
    ensures
        match r {
            Some((e, p)) => p == pos + point_item(e).len() && holds_at(bytes@, pos as int, point_item(e)),
            None => true,
        },
        forall|t: DataAccessPoint| #[trigger] holds_at(bytes@, pos as int, point_item(t)) ==> (r matches Some((e, p)) && same_point(e, t)),
{
    let (table, at1) = match get_str(bytes, pos) {
        Some(v) => v,
        None => {
            proof {
                assert forall|t: DataAccessPoint| #[trigger] holds_at(bytes@, pos as int, point_item(t)) implies false by {
                    lemma_point_split(bytes@, pos as int, t);

                }
            }
            return None;
        },
    };
    let (operation, at2) = match get_op(bytes, at1) {
        Some(v) => v,
        None => {
            proof {
                assert forall|t: DataAccessPoint| #[trigger] holds_at(bytes@, pos as int, point_item(t)) implies false by {
                    lemma_point_split(bytes@, pos as int, t);

                }
            }
            return None;
        },
    };
    let (fields, at3) = match get_strs(bytes, at2) {
        Some(v) => v,
        None => {
            proof {
                assert forall|t: DataAccessPoint| #[trigger] holds_at(bytes@, pos as int, point_item(t)) implies false by {
                    lemma_point_split(bytes@, pos as int, t);

                }
            }
            return None;
        },
    };
    let (file, at4) = match get_str(bytes, at3) {
        Some(v) => v,
        None => {
            proof {
                assert forall|t: DataAccessPoint| #[trigger] holds_at(bytes@, pos as int, point_item(t)) implies false by {
                    lemma_point_split(bytes@, pos as int, t);
                    lemma_cat_strs_same(fields@, t.fields@);
                }
            }
            return None;
        },
    };
    let (line, at5) = match get_u32(bytes, at4) {
        Some(v) => v,
        None => {
            proof {
                assert forall|t: DataAccessPoint| #[trigger] holds_at(bytes@, pos as int, point_item(t)) implies false by {
                    lemma_point_split(bytes@, pos as int, t);
                    lemma_cat_strs_same(fields@, t.fields@);
                }
            }
            return None;
        },
    };
    let (confidence, at6) = match get_conf(bytes, at5) {
        Some(v) => v,
        None => {
            proof {
                assert forall|t: DataAccessPoint| #[trigger] holds_at(bytes@, pos as int, point_item(t)) implies false by {
                    lemma_point_split(bytes@, pos as int, t);
                    lemma_cat_strs_same(fields@, t.fields@);
                }
            }
            return None;
        },
    };
    let (framework, at7) = match get_opt_str(bytes, at6) {
        Some(v) => v,
        None => {
            proof {
                assert forall|t: DataAccessPoint| #[trigger] holds_at(bytes@, pos as int, point_item(t)) implies false by {
                    lemma_point_split(bytes@, pos as int, t);
                    lemma_cat_strs_same(fields@, t.fields@);
                }
            }
            return None;
        },
    };
    let e = DataAccessPoint { table, operation, fields, file, line, confidence, framework };
    proof {
        lemma_point_item_def(e);
        lemma_holds_split(bytes@, pos as int, enc_str(e.table@), enc_op(e.operation));
        lemma_holds_split(bytes@, pos as int, enc_str(e.table@) + enc_op(e.operation), enc_strs(e.fields@));
        lemma_holds_split(bytes@, pos as int, enc_str(e.table@) + enc_op(e.operation) + enc_strs(e.fields@), enc_str(e.file@));
        lemma_holds_split(bytes@, pos as int, enc_str(e.table@) + enc_op(e.operation) + enc_strs(e.fields@) + enc_str(e.file@), enc_u32(e.line));
        lemma_holds_split(bytes@, pos as int, enc_str(e.table@) + enc_op(e.operation) + enc_strs(e.fields@) + enc_str(e.file@) + enc_u32(e.line), enc_conf(e.confidence));
        lemma_holds_split(bytes@, pos as int, enc_str(e.table@) + enc_op(e.operation) + enc_strs(e.fields@) + enc_str(e.file@) + enc_u32(e.line) + enc_conf(e.confidence), enc_opt_str(e.framework));
        assert forall|t: DataAccessPoint| #[trigger] holds_at(bytes@, pos as int, point_item(t)) implies same_point(e, t) by {
            lemma_point_split(bytes@, pos as int, t);
            lemma_cat_strs_same(e.fields@, t.fields@);
            lemma_same_opt(e.framework, t.framework);
        }
    }
    Some((e, at7))
}

/// The encodings of the items of `v`, one after another.
pub open spec fn cat_points(v: Seq<DataAccessPoint>) -> Seq<u8>
    decreases v.len(),
{
    if v.len() == 0 {
        Seq::empty()
    } else {
        cat_points(v.drop_last()) + point_item(v.last())
    }
}

/// A list: its length, then its items.
pub open spec fn enc_points(v: Seq<DataAccessPoint>) -> Seq<u8> {
    enc_len(v.len()) + cat_points(v)
}

/// Whether two lists hold the same values, item by item.
pub open spec fn same_points(a: Seq<DataAccessPoint>, b: Seq<DataAccessPoint>) -> bool {
    a.len() == b.len() && forall|i: int| 0 <= i < a.len() ==> #[trigger] same_point(a[i], b[i])
}

proof fn lemma_cat_points_step(v: Seq<DataAccessPoint>, i: int)
    requires
        0 <= i < v.len(),
    ensures
        cat_points(v.subrange(0, i + 1)) == cat_points(v.subrange(0, i)) + point_item(v[i]),
{
    assert(v.subrange(0, i + 1).drop_last() =~= v.subrange(0, i));
}

proof fn lemma_cat_points_prefix(v: Seq<DataAccessPoint>, i: int)
    requires
        0 <= i <= v.len(),
    ensures
        is_prefix(cat_points(v.subrange(0, i)), cat_points(v)),
    decreases v.len() - i,
{
    if i == v.len() {
        assert(v.subrange(0, i) =~= v);
        assert(cat_points(v).subrange(0, cat_points(v).len() as int) =~= cat_points(v));
    } else {
        lemma_cat_points_prefix(v, i + 1);
        lemma_cat_points_step(v, i);
        assert(cat_points(v.subrange(0, i + 1)).subrange(0, cat_points(v.subrange(0, i)).len() as int) =~= cat_points(v.subrange(0, i)));
        lemma_prefix_trans(cat_points(v.subrange(0, i)), cat_points(v.subrange(0, i + 1)), cat_points(v));
    }
}

proof fn lemma_cat_points_same(a: Seq<DataAccessPoint>, b: Seq<DataAccessPoint>)
    requires
        same_points(a, b),
    ensures
        cat_points(a) == cat_points(b),
    decreases a.len(),
{
    if a.len() > 0 {
        assert(same_points(a.drop_last(), b.drop_last())) by {
            assert forall|i: int| 0 <= i < a.len() - 1 implies #[trigger] same_point(a.drop_last()[i], b.drop_last()[i]) by {
                assert(same_point(a[i], b[i]));
            }
        }
        lemma_cat_points_same(a.drop_last(), b.drop_last());
        assert(same_point(a[a.len() - 1], b[b.len() - 1]));
        lemma_same_point(a.last(), b.last());
    }
}

/// Appends list `v` to `out`.
pub fn put_points(out: &mut Vec<u8>, v: &Vec<DataAccessPoint>)
    ensures
        final(out)@ == old(out)@ + enc_points(v@),
{
    put_len(out, v.len());
    let ghost start = out@;
    let mut i: usize = 0;
    while i < v.len()
        invariant
            i <= v@.len(),
            out@ == start + cat_points(v@.subrange(0, i as int)),
        decreases v@.len() - i,
    {
        put_point(out, &v[i]);
        proof {
            lemma_cat_points_step(v@, i as int);
        }
        i = i + 1;
    }
    assert(v@.subrange(0, v@.len() as int) =~= v@);
}

/// The list stored at `pos`, and the position after it.
pub fn get_points(bytes: &Vec<u8>, pos: usize) -> (r: Option<(Vec<DataAccessPoint>, usize)>)
    ensures
        match r {
            Some((v, p)) => p == pos + enc_points(v@).len() && holds_at(bytes@, pos as int, enc_points(v@)),
            None => true,
        },
        forall|t: Seq<DataAccessPoint>| #[trigger] holds_at(bytes@, pos as int, enc_points(t)) ==> (r matches Some((v, p)) && same_points(v@, t)),
{
    let blen = bytes.len();
    let (n, at0) = match get_len(bytes, pos) {
        Some(v) => v,
        None => {
            proof {
                assert forall|t: Seq<DataAccessPoint>| #[trigger] holds_at(bytes@, pos as int, enc_points(t)) implies false by {
                    lemma_holds_split(bytes@, pos as int, enc_len(t.len()), cat_points(t));
                    lemma_cat_points_len(t);
                    assert(bytes@.len() == blen);
                    assert(holds_at(bytes@, pos as int, enc_len((t.len() as usize) as nat)));
                }
            }
            return None;
        },
    };
    let mut out: Vec<DataAccessPoint> = Vec::new();
    let mut p = at0;
    proof {
        assert(cat_points(out@) =~= Seq::<u8>::empty());
        assert(bytes@.subrange(at0 as int, at0 as int) =~= Seq::<u8>::empty());
        assert forall|t: Seq<DataAccessPoint>| #[trigger] holds_at(bytes@, pos as int, enc_points(t)) implies t.len() == n && same_points(out@, t.subrange(0, 0)) by {
            lemma_holds_split(bytes@, pos as int, enc_len(t.len()), cat_points(t));
            lemma_cat_points_len(t);
            assert(bytes@.len() == blen);
            assert(holds_at(bytes@, pos as int, enc_len((t.len() as usize) as nat)));
        }
    }
    let mut i: usize = 0;
    while i < n
        invariant
            at0 == pos + 8,
            i <= n,
            bytes@.len() == blen,
            p == at0 + cat_points(out@).len(),
            holds_at(bytes@, pos as int, enc_len(n as nat)),
            out@.len() == i,
            holds_at(bytes@, at0 as int, cat_points(out@)),
            forall|t: Seq<DataAccessPoint>| #[trigger] holds_at(bytes@, pos as int, enc_points(t)) ==> t.len() == n && same_points(out@, t.subrange(0, i as int)),
        decreases n - i,
    {
        let ghost o0 = out@;
        let (x, at1) = match get_point(bytes, p) {
            Some(v) => v,
            None => {
                proof {
                    assert forall|t: Seq<DataAccessPoint>| #[trigger] holds_at(bytes@, pos as int, enc_points(t)) implies false by {
                        lemma_points_item_at(bytes@, pos as int, at0 as int, t, o0, i as int);
                    }
                }
                return None;
            },
        };
        out.push(x);
        proof {
            assert(out@.drop_last() =~= o0);
            lemma_holds_split(bytes@, at0 as int, cat_points(o0), point_item(x));
            assert forall|t: Seq<DataAccessPoint>| #[trigger] holds_at(bytes@, pos as int, enc_points(t)) implies t.len() == n && same_points(out@, t.subrange(0, i + 1)) by {
                lemma_points_item_at(bytes@, pos as int, at0 as int, t, o0, i as int);
                assert forall|j: int| 0 <= j < i + 1 implies #[trigger] same_point(out@[j], t.subrange(0, i + 1)[j]) by {
                    if j < i {
                        assert(out@[j] == o0[j]);
                        assert(same_point(o0[j], t.subrange(0, i as int)[j]));
                    }
                }
            }
        }
        p = at1;
        i = i + 1;
    }
    proof {
        lemma_holds_split(bytes@, pos as int, enc_len(n as nat), cat_points(out@));
        assert forall|t: Seq<DataAccessPoint>| #[trigger] holds_at(bytes@, pos as int, enc_points(t)) implies same_points(out@, t) by {
            assert(t.subrange(0, n as int) =~= t);
        }
    }
    Some((out, p))
}

proof fn lemma_cat_points_len(t: Seq<DataAccessPoint>)
    ensures
        cat_points(t).len() >= t.len(),
    decreases t.len(),
{
    if t.len() > 0 {
        lemma_cat_points_len(t.drop_last());
        lemma_point_item_nonempty(t.last());
    }
}

/// Where the list `t` is stored at `pos` and `o` holds its first `i` items,
/// item `i` of `t` is stored right after them.
proof fn lemma_points_item_at(bytes: Seq<u8>, pos: int, at0: int, t: Seq<DataAccessPoint>, o: Seq<DataAccessPoint>, i: int)
    requires
        holds_at(bytes, pos, enc_points(t)),
        at0 == pos + 8,
        0 <= i,
        t.len() > i,
        same_points(o, t.subrange(0, i)),
    ensures
        holds_at(bytes, at0 + cat_points(o).len(), point_item(t[i])),
{
    lemma_holds_split(bytes, pos, enc_len(t.len()), cat_points(t));
    lemma_cat_points_prefix(t, i + 1);
    lemma_cat_points_step(t, i);
    lemma_cat_points_same(o, t.subrange(0, i));
    let pre = cat_points(t.subrange(0, i + 1));
    lemma_holds_split(bytes, at0, pre, cat_points(t).subrange(pre.len() as int, cat_points(t).len() as int));
    assert(cat_points(t) =~= pre + cat_points(t).subrange(pre.len() as int, cat_points(t).len() as int));
    lemma_holds_split(bytes, at0, cat_points(t.subrange(0, i)), point_item(t[i]));
}


/// The naming part of a function.
pub struct NodeHead {
    pub id: String,
    pub name: String,
    pub qualified_name: String,
    pub file: String,
    pub start_line: u32,
    pub end_line: u32,
}

/// The naming part of function `n`.
pub open spec fn head_of(n: FunctionNode) -> NodeHead {
    NodeHead {
        id: n.id,
        name: n.name,
        qualified_name: n.qualified_name,
        file: n.file,
        start_line: n.start_line,
        end_line: n.end_line,
    }
}

/// The naming part of a function: id, name, qualified name, file, lines.
#[verifier::opaque]
pub open spec fn head_item(e: NodeHead) -> Seq<u8> {
    enc_str(e.id@) + enc_str(e.name@) + enc_str(e.qualified_name@) + enc_str(e.file@) + enc_u32(e.start_line) + enc_u32(e.end_line)
}

proof fn lemma_head_item_def(e: NodeHead)
    ensures
        head_item(e) == enc_str(e.id@) + enc_str(e.name@) + enc_str(e.qualified_name@) + enc_str(e.file@) + enc_u32(e.start_line) + enc_u32(e.end_line),
{
    reveal(head_item);
}

/// Whether two naming parts hold the same values.
pub open spec fn same_head(a: NodeHead, b: NodeHead) -> bool {
    &&& a.id@ == b.id@
    &&& a.name@ == b.name@
    &&& a.qualified_name@ == b.qualified_name@
    &&& a.file@ == b.file@
    &&& a.start_line == b.start_line
    &&& a.end_line == b.end_line
}

proof fn lemma_same_head(a: NodeHead, b: NodeHead)
    requires
        same_head(a, b),
    ensures
        head_item(a) == head_item(b),
{
    reveal(head_item);

}

proof fn lemma_head_item_nonempty(e: NodeHead)
    ensures
        head_item(e).len() > 0,
{
    reveal(head_item);
}


proof fn lemma_head_split(bytes: Seq<u8>, pos: int, t: NodeHead)
    requires
        holds_at(bytes, pos, head_item(t)),
    ensures
        holds_at(bytes, pos, enc_str(t.id@)),
        holds_at(bytes, pos + enc_str(t.id@).len(), enc_str(t.name@)),
        holds_at(bytes, pos + enc_str(t.id@).len() + enc_str(t.name@).len(), enc_str(t.qualified_name@)),
        holds_at(bytes, pos + enc_str(t.id@).len() + enc_str(t.name@).len() + enc_str(t.qualified_name@).len(), enc_str(t.file@)),
        holds_at(bytes, pos + enc_str(t.id@).len() + enc_str(t.name@).len() + enc_str(t.qualified_name@).len() + enc_str(t.file@).len(), enc_u32(t.start_line)),
        holds_at(bytes, pos + enc_str(t.id@).len() + enc_str(t.name@).len() + enc_str(t.qualified_name@).len() + enc_str(t.file@).len() + enc_u32(t.start_line).len(), enc_u32(t.end_line)),
{
    reveal(head_item);
    lemma_holds_split(bytes, pos, enc_str(t.id@) + enc_str(t.name@) + enc_str(t.qualified_name@) + enc_str(t.file@) + enc_u32(t.start_line), enc_u32(t.end_line));
    lemma_holds_split(bytes, pos, enc_str(t.id@) + enc_str(t.name@) + enc_str(t.qualified_name@) + enc_str(t.file@), enc_u32(t.start_line));
    lemma_holds_split(bytes, pos, enc_str(t.id@) + enc_str(t.name@) + enc_str(t.qualified_name@), enc_str(t.file@));
    lemma_holds_split(bytes, pos, enc_str(t.id@) + enc_str(t.name@), enc_str(t.qualified_name@));
    lemma_holds_split(bytes, pos, enc_str(t.id@), enc_str(t.name@));
}

fn get_head(bytes: &Vec<u8>, pos: usize) -> (r: Option<(NodeHead, usize)>)
    ensures
        match r {
            Some((e, p)) => p == pos + head_item(e).len() && holds_at(bytes@, pos as int, head_item(e)),
            None => true,
        },
        forall|t: NodeHead| #[trigger] holds_at(bytes@, pos as int, head_item(t)) ==> (r matches Some((e, p)) && same_head(e, t)),
{
    let (id, at1) = match get_str(bytes, pos) {
        Some(v) => v,
        None => {
            proof {
                assert forall|t: NodeHead| #[trigger] holds_at(bytes@, pos as int, head_item(t)) implies false by {
                    lemma_head_split(bytes@, pos as int, t);

                }
            }
            return None;
        },
    };
    let (name, at2) = match get_str(bytes, at1) {
        Some(v) => v,
        None => {
            proof {
                assert forall|t: NodeHead| #[trigger] holds_at(bytes@, pos as int, head_item(t)) implies false by {
                    lemma_head_split(bytes@, pos as int, t);

                }
            }
            return None;
        },
    };
    let (qualified_name, at3) = match get_str(bytes, at2) {
        Some(v) => v,
        None => {
            proof {
                assert forall|t: NodeHead| #[trigger] holds_at(bytes@, pos as int, head_item(t)) implies false by {
                    lemma_head_split(bytes@, pos as int, t);

                }
            }
            return None;
        },
    };
    let (file, at4) = match get_str(bytes, at3) {
        Some(v) => v,
        None => {
            proof {
                assert forall|t: NodeHead| #[trigger] holds_at(bytes@, pos as int, head_item(t)) implies false by {
                    lemma_head_split(bytes@, pos as int, t);

                }
            }
            return None;
        },
    };
    let (start_line, at5) = match get_u32(bytes, at4) {
        Some(v) => v,
        None => {
            proof {
                assert forall|t: NodeHead| #[trigger] holds_at(bytes@, pos as int, head_item(t)) implies false by {
                    lemma_head_split(bytes@, pos as int, t);

                }
            }
            return None;
        },
    };
    let (end_line, at6) = match get_u32(bytes, at5) {
        Some(v) => v,
        None => {
            proof {
                assert forall|t: NodeHead| #[trigger] holds_at(bytes@, pos as int, head_item(t)) implies false by {
                    lemma_head_split(bytes@, pos as int, t);

                }
            }
            return None;
        },
    };
    let e = NodeHead { id, name, qualified_name, file, start_line, end_line };
    proof {
        lemma_head_item_def(e);
        lemma_holds_split(bytes@, pos as int, enc_str(e.id@), enc_str(e.name@));
        lemma_holds_split(bytes@, pos as int, enc_str(e.id@) + enc_str(e.name@), enc_str(e.qualified_name@));
        lemma_holds_split(bytes@, pos as int, enc_str(e.id@) + enc_str(e.name@) + enc_str(e.qualified_name@), enc_str(e.file@));
        lemma_holds_split(bytes@, pos as int, enc_str(e.id@) + enc_str(e.name@) + enc_str(e.qualified_name@) + enc_str(e.file@), enc_u32(e.start_line));
        lemma_holds_split(bytes@, pos as int, enc_str(e.id@) + enc_str(e.name@) + enc_str(e.qualified_name@) + enc_str(e.file@) + enc_u32(e.start_line), enc_u32(e.end_line));
        assert forall|t: NodeHead| #[trigger] holds_at(bytes@, pos as int, head_item(t)) implies same_head(e, t) by {
            lemma_head_split(bytes@, pos as int, t);

        }
    }
    Some((e, at6))
}

/// A function: its naming part, calls, accesses and entry flag.
#[verifier::opaque]
pub open spec fn node_item(e: FunctionNode) -> Seq<u8> {
    head_item(head_of(e)) + enc_edges(e.calls@) + enc_points(e.data_access@) + enc_bool(e.is_entry_point)
}

proof fn lemma_node_item_def(e: FunctionNode)
    ensures
        node_item(e) == head_item(head_of(e)) + enc_edges(e.calls@) + enc_points(e.data_access@) + enc_bool(e.is_entry_point),
{
    reveal(node_item);
}

/// Whether two functions hold the same values.
pub open spec fn same_node(a: FunctionNode, b: FunctionNode) -> bool {
    &&& same_head(head_of(a), head_of(b))
    &&& same_edges(a.calls@, b.calls@)
    &&& same_points(a.data_access@, b.data_access@)
    &&& a.is_entry_point == b.is_entry_point
}

proof fn lemma_same_node(a: FunctionNode, b: FunctionNode)
    requires
        same_node(a, b),
    ensures
        node_item(a) == node_item(b),
{
    reveal(node_item);
    lemma_same_head(head_of(a), head_of(b));
    lemma_cat_edges_same(a.calls@, b.calls@);
    lemma_cat_points_same(a.data_access@, b.data_access@);
}

proof fn lemma_node_item_nonempty(e: FunctionNode)
    ensures
        node_item(e).len() > 0,
{
    reveal(node_item);
}

fn put_node(out: &mut Vec<u8>, e: &FunctionNode)
    ensures
        final(out)@ == old(out)@ + node_item(*e),
{
    put_str(out, &e.id);
    put_str(out, &e.name);
    put_str(out, &e.qualified_name);
    put_str(out, &e.file);
    put_u32(out, e.start_line);
    put_u32(out, e.end_line);
    proof {
        lemma_head_item_def(head_of(*e));
    }
    put_edges(out, &e.calls);
    put_points(out, &e.data_access);
    put_bool(out, e.is_entry_point);
    proof {
        lemma_node_item_def(*e);
    }
    assert(final(out)@ =~= old(out)@ + node_item(*e));
}

proof fn lemma_node_split(bytes: Seq<u8>, pos: int, t: FunctionNode)
    requires
        holds_at(bytes, pos, node_item(t)),
    ensures
        holds_at(bytes, pos, head_item(head_of(t))),
        holds_at(bytes, pos + head_item(head_of(t)).len(), enc_edges(t.calls@)),
        holds_at(bytes, pos + head_item(head_of(t)).len() + enc_edges(t.calls@).len(), enc_points(t.data_access@)),
        holds_at(bytes, pos + head_item(head_of(t)).len() + enc_edges(t.calls@).len() + enc_points(t.data_access@).len(), enc_bool(t.is_entry_point)),
{
    reveal(node_item);
    let a = head_item(head_of(t));
    let b = enc_edges(t.calls@);
    let c = enc_points(t.data_access@);
    let d = enc_bool(t.is_entry_point);
    lemma_holds_split(bytes, pos, a + b + c, d);
    lemma_holds_split(bytes, pos, a + b, c);
    lemma_holds_split(bytes, pos, a, b);
}

fn get_node(bytes: &Vec<u8>, pos: usize) -> (r: Option<(FunctionNode, usize)>)
    ensures
        match r {
            Some((e, p)) => p == pos + node_item(e).len() && holds_at(bytes@, pos as int, node_item(e)),
            None => true,
        },
        forall|t: FunctionNode| #[trigger] holds_at(bytes@, pos as int, node_item(t)) ==> (r matches Some((e, p)) && same_node(e, t)),
{
    let (h, at1) = match get_head(bytes, pos) {
        Some(v) => v,
        None => {
            proof {
                assert forall|t: FunctionNode| #[trigger] holds_at(bytes@, pos as int, node_item(t)) implies false by {
                    lemma_node_split(bytes@, pos as int, t);
                }
            }
            return None;
        },
    };
    let (calls, at2) = match get_edges(bytes, at1) {
        Some(v) => v,
        None => {
            proof {
                assert forall|t: FunctionNode| #[trigger] holds_at(bytes@, pos as int, node_item(t)) implies false by {
                    lemma_node_split(bytes@, pos as int, t);
                    lemma_same_head(h, head_of(t));
                }
            }
            return None;
        },
    };
    let (data_access, at3) = match get_points(bytes, at2) {
        Some(v) => v,
        None => {
            proof {
                assert forall|t: FunctionNode| #[trigger] holds_at(bytes@, pos as int, node_item(t)) implies false by {
                    lemma_node_split(bytes@, pos as int, t);
                    lemma_same_head(h, head_of(t));
                    lemma_cat_edges_same(calls@, t.calls@);
                }
            }
            return None;
        },
    };
    let (is_entry_point, at4) = match get_bool(bytes, at3) {
        Some(v) => v,
        None => {
            proof {
                assert forall|t: FunctionNode| #[trigger] holds_at(bytes@, pos as int, node_item(t)) implies false by {
                    lemma_node_split(bytes@, pos as int, t);
                    lemma_same_head(h, head_of(t));
                    lemma_cat_edges_same(calls@, t.calls@);
                    lemma_cat_points_same(data_access@, t.data_access@);
                }
            }
            return None;
        },
    };
    let ghost hv = h;
    let e = FunctionNode {
        id: h.id,
        name: h.name,
        qualified_name: h.qualified_name,
        file: h.file,
        start_line: h.start_line,
        end_line: h.end_line,
        calls,
        data_access,
        is_entry_point,
    };
    proof {
        assert(head_of(e) == hv);
        lemma_node_item_def(e);
        let a = head_item(head_of(e));
        let b = enc_edges(e.calls@);
        let c = enc_points(e.data_access@);
        let d = enc_bool(e.is_entry_point);
        lemma_holds_split(bytes@, pos as int, a, b);
        lemma_holds_split(bytes@, pos as int, a + b, c);
        lemma_holds_split(bytes@, pos as int, a + b + c, d);
        assert forall|t: FunctionNode| #[trigger] holds_at(bytes@, pos as int, node_item(t)) implies same_node(e, t) by {
            lemma_node_split(bytes@, pos as int, t);
            lemma_same_head(hv, head_of(t));
            lemma_cat_edges_same(e.calls@, t.calls@);
            lemma_cat_points_same(e.data_access@, t.data_access@);
        }
    }
    Some((e, at4))
}

/// The encodings of the items of `v`, one after another.
pub open spec fn cat_nodes(v: Seq<FunctionNode>) -> Seq<u8>
    decreases v.len(),
{
    if v.len() == 0 {
        Seq::empty()
    } else {
        cat_nodes(v.drop_last()) + node_item(v.last())
    }
}

/// A list: its length, then its items.
pub open spec fn enc_nodes(v: Seq<FunctionNode>) -> Seq<u8> {
    enc_len(v.len()) + cat_nodes(v)
}

/// Whether two lists hold the same values, item by item.
pub open spec fn same_nodes(a: Seq<FunctionNode>, b: Seq<FunctionNode>) -> bool {
    a.len() == b.len() && forall|i: int| 0 <= i < a.len() ==> #[trigger] same_node(a[i], b[i])
}

proof fn lemma_cat_nodes_step(v: Seq<FunctionNode>, i: int)
    requires
        0 <= i < v.len(),
    ensures
        cat_nodes(v.subrange(0, i + 1)) == cat_nodes(v.subrange(0, i)) + node_item(v[i]),
{
    assert(v.subrange(0, i + 1).drop_last() =~= v.subrange(0, i));
}

proof fn lemma_cat_nodes_prefix(v: Seq<FunctionNode>, i: int)
    requires
        0 <= i <= v.len(),
    ensures
        is_prefix(cat_nodes(v.subrange(0, i)), cat_nodes(v)),
    decreases v.len() - i,
{
    if i == v.len() {
        assert(v.subrange(0, i) =~= v);
        assert(cat_nodes(v).subrange(0, cat_nodes(v).len() as int) =~= cat_nodes(v));
    } else {
        lemma_cat_nodes_prefix(v, i + 1);
        lemma_cat_nodes_step(v, i);
        assert(cat_nodes(v.subrange(0, i + 1)).subrange(0, cat_nodes(v.subrange(0, i)).len() as int) =~= cat_nodes(v.subrange(0, i)));
        lemma_prefix_trans(cat_nodes(v.subrange(0, i)), cat_nodes(v.subrange(0, i + 1)), cat_nodes(v));
    }
}

proof fn lemma_cat_nodes_same(a: Seq<FunctionNode>, b: Seq<FunctionNode>)
    requires
        same_nodes(a, b),
    ensures
        cat_nodes(a) == cat_nodes(b),
    decreases a.len(),
{
    if a.len() > 0 {
        assert(same_nodes(a.drop_last(), b.drop_last())) by {
            assert forall|i: int| 0 <= i < a.len() - 1 implies #[trigger] same_node(a.drop_last()[i], b.drop_last()[i]) by {
                assert(same_node(a[i], b[i]));
            }
        }
        lemma_cat_nodes_same(a.drop_last(), b.drop_last());
        assert(same_node(a[a.len() - 1], b[b.len() - 1]));
        lemma_same_node(a.last(), b.last());
    }
}

/// Appends list `v` to `out`.
pub fn put_nodes(out: &mut Vec<u8>, v: &Vec<FunctionNode>)
    ensures
        final(out)@ == old(out)@ + enc_nodes(v@),
{
    put_len(out, v.len());
    let ghost start = out@;
    let mut i: usize = 0;
    while i < v.len()
        invariant
            i <= v@.len(),
            out@ == start + cat_nodes(v@.subrange(0, i as int)),
        decreases v@.len() - i,
    {
        put_node(out, &v[i]);
        proof {
            lemma_cat_nodes_step(v@, i as int);
        }
        i = i + 1;
    }
    assert(v@.subrange(0, v@.len() as int) =~= v@);
}

/// The list stored at `pos`, and the position after it.
pub fn get_nodes(bytes: &Vec<u8>, pos: usize) -> (r: Option<(Vec<FunctionNode>, usize)>)
    ensures
        match r {
            Some((v, p)) => p == pos + enc_nodes(v@).len() && holds_at(bytes@, pos as int, enc_nodes(v@)),
            None => true,
        },
        forall|t: Seq<FunctionNode>| #[trigger] holds_at(bytes@, pos as int, enc_nodes(t)) ==> (r matches Some((v, p)) && same_nodes(v@, t)),
{
    let blen = bytes.len();
    let (n, at0) = match get_len(bytes, pos) {
        Some(v) => v,
        None => {
            proof {
                assert forall|t: Seq<FunctionNode>| #[trigger] holds_at(bytes@, pos as int, enc_nodes(t)) implies false by {
                    lemma_holds_split(bytes@, pos as int, enc_len(t.len()), cat_nodes(t));
                    lemma_cat_nodes_len(t);
                    assert(bytes@.len() == blen);
                    assert(holds_at(bytes@, pos as int, enc_len((t.len() as usize) as nat)));
                }
            }
            return None;
        },
    };
    let mut out: Vec<FunctionNode> = Vec::new();
    let mut p = at0;
    proof {
        assert(cat_nodes(out@) =~= Seq::<u8>::empty());
        assert(bytes@.subrange(at0 as int, at0 as int) =~= Seq::<u8>::empty());
        assert forall|t: Seq<FunctionNode>| #[trigger] holds_at(bytes@, pos as int, enc_nodes(t)) implies t.len() == n && same_nodes(out@, t.subrange(0, 0)) by {
            lemma_holds_split(bytes@, pos as int, enc_len(t.len()), cat_nodes(t));
            lemma_cat_nodes_len(t);
            assert(bytes@.len() == blen);
            assert(holds_at(bytes@, pos as int, enc_len((t.len() as usize) as nat)));
        }
    }
    let mut i: usize = 0;
    while i < n
        invariant
            at0 == pos + 8,
            i <= n,
            bytes@.len() == blen,
            p == at0 + cat_nodes(out@).len(),
            holds_at(bytes@, pos as int, enc_len(n as nat)),
            out@.len() == i,
            holds_at(bytes@, at0 as int, cat_nodes(out@)),
            forall|t: Seq<FunctionNode>| #[trigger] holds_at(bytes@, pos as int, enc_nodes(t)) ==> t.len() == n && same_nodes(out@, t.subrange(0, i as int)),
        decreases n - i,
    {
        let ghost o0 = out@;
        let (x, at1) = match get_node(bytes, p) {
            Some(v) => v,
            None => {
                proof {
                    assert forall|t: Seq<FunctionNode>| #[trigger] holds_at(bytes@, pos as int, enc_nodes(t)) implies false by {
                        lemma_nodes_item_at(bytes@, pos as int, at0 as int, t, o0, i as int);
                    }
                }
                return None;
            },
        };
        out.push(x);
        proof {
            assert(out@.drop_last() =~= o0);
            lemma_holds_split(bytes@, at0 as int, cat_nodes(o0), node_item(x));
            assert forall|t: Seq<FunctionNode>| #[trigger] holds_at(bytes@, pos as int, enc_nodes(t)) implies t.len() == n && same_nodes(out@, t.subrange(0, i + 1)) by {
                lemma_nodes_item_at(bytes@, pos as int, at0 as int, t, o0, i as int);
                assert forall|j: int| 0 <= j < i + 1 implies #[trigger] same_node(out@[j], t.subrange(0, i + 1)[j]) by {
                    if j < i {
                        assert(out@[j] == o0[j]);
                        assert(same_node(o0[j], t.subrange(0, i as int)[j]));
                    }
                }
            }
        }
        p = at1;
        i = i + 1;
    }
    proof {
        lemma_holds_split(bytes@, pos as int, enc_len(n as nat), cat_nodes(out@));
        assert forall|t: Seq<FunctionNode>| #[trigger] holds_at(bytes@, pos as int, enc_nodes(t)) implies same_nodes(out@, t) by {
            assert(t.subrange(0, n as int) =~= t);
        }
    }
    Some((out, p))
}

proof fn lemma_cat_nodes_len(t: Seq<FunctionNode>)
    ensures
        cat_nodes(t).len() >= t.len(),
    decreases t.len(),
{
    if t.len() > 0 {
        lemma_cat_nodes_len(t.drop_last());
        lemma_node_item_nonempty(t.last());
    }
}

/// Where the list `t` is stored at `pos` and `o` holds its first `i` items,
/// item `i` of `t` is stored right after them.
proof fn lemma_nodes_item_at(bytes: Seq<u8>, pos: int, at0: int, t: Seq<FunctionNode>, o: Seq<FunctionNode>, i: int)
    requires
        holds_at(bytes, pos, enc_nodes(t)),
        at0 == pos + 8,
        0 <= i,
        t.len() > i,
        same_nodes(o, t.subrange(0, i)),
    ensures
        holds_at(bytes, at0 + cat_nodes(o).len(), node_item(t[i])),
{
    lemma_holds_split(bytes, pos, enc_len(t.len()), cat_nodes(t));
    lemma_cat_nodes_prefix(t, i + 1);
    lemma_cat_nodes_step(t, i);
    lemma_cat_nodes_same(o, t.subrange(0, i));
    let pre = cat_nodes(t.subrange(0, i + 1));
    lemma_holds_split(bytes, at0, pre, cat_nodes(t).subrange(pre.len() as int, cat_nodes(t).len() as int));
    assert(cat_nodes(t) =~= pre + cat_nodes(t).subrange(pre.len() as int, cat_nodes(t).len() as int));
    lemma_holds_split(bytes, at0, cat_nodes(t.subrange(0, i)), node_item(t[i]));
}

/// A stored snapshot: the layout version, then the functions.
pub open spec fn enc_snapshot(version: u32, fs: Seq<FunctionNode>) -> Seq<u8> {
    enc_u32(version) + enc_nodes(fs)
}

/// The stored form of the functions `fs`.
pub fn encode_snapshot(fs: &Vec<FunctionNode>) -> (r: Vec<u8>)
    ensures
        r@ == enc_snapshot(SCHEMA_VERSION, fs@),
{
    let mut out: Vec<u8> = Vec::new();
    put_u32(&mut out, SCHEMA_VERSION);
    put_nodes(&mut out, fs);
    assert(out@ =~= enc_snapshot(SCHEMA_VERSION, fs@));
    out
}

/// The functions stored in `bytes`. `Incompatible` when the bytes begin
/// with another layout version; `Corrupt` when they are no stored snapshot.
pub fn decode_snapshot(bytes: &Vec<u8>) -> (r: Result<Vec<FunctionNode>, StoreError>)
    ensures
        match r {
            Ok(fs) => bytes@ == enc_snapshot(SCHEMA_VERSION, fs@),
            Err(e) => (e == StoreError::Incompatible && exists|v: u32|
                v != SCHEMA_VERSION && #[trigger] holds_at(bytes@, 0, enc_u32(v))) || (e == StoreError::Corrupt
                && forall|t: Seq<FunctionNode>| bytes@ != #[trigger] enc_snapshot(SCHEMA_VERSION, t)),
        },
        forall|t: Seq<FunctionNode>|
            bytes@ == #[trigger] enc_snapshot(SCHEMA_VERSION, t) ==> (r matches Ok(fs) && same_nodes(fs@, t)),
{
    let (version, at0) = match get_u32(bytes, 0) {
        Some(v) => v,
        None => {
            proof {
                assert forall|t: Seq<FunctionNode>| bytes@ != #[trigger] enc_snapshot(SCHEMA_VERSION, t) by {
                    if bytes@ == enc_snapshot(SCHEMA_VERSION, t) {
                        lemma_holds_split(bytes@, 0, enc_u32(SCHEMA_VERSION), enc_nodes(t));
                        assert(bytes@.subrange(0, bytes@.len() as int) =~= bytes@);
                    }
                }
            }
            return Err(StoreError::Corrupt);
        },
    };
    if version != SCHEMA_VERSION {
        proof {
            assert forall|t: Seq<FunctionNode>| bytes@ != #[trigger] enc_snapshot(SCHEMA_VERSION, t) by {
                if bytes@ == enc_snapshot(SCHEMA_VERSION, t) {
                    assert(bytes@.subrange(0, bytes@.len() as int) =~= bytes@);
                    lemma_holds_split(bytes@, 0, enc_u32(SCHEMA_VERSION), enc_nodes(t));
                }
            }
        }
        return Err(StoreError::Incompatible);
    }
    let (fs, p) = match get_nodes(bytes, at0) {
        Some(v) => v,
        None => {
            proof {
                assert forall|t: Seq<FunctionNode>| bytes@ != #[trigger] enc_snapshot(SCHEMA_VERSION, t) by {
                    if bytes@ == enc_snapshot(SCHEMA_VERSION, t) {
                        assert(bytes@.subrange(0, bytes@.len() as int) =~= bytes@);
                        lemma_holds_split(bytes@, 0, enc_u32(SCHEMA_VERSION), enc_nodes(t));
                    }
                }
            }
            return Err(StoreError::Corrupt);
        },
    };
    if p != bytes.len() {
        proof {
            assert forall|t: Seq<FunctionNode>| bytes@ != #[trigger] enc_snapshot(SCHEMA_VERSION, t) by {
                if bytes@ == enc_snapshot(SCHEMA_VERSION, t) {
                    assert(bytes@.subrange(0, bytes@.len() as int) =~= bytes@);
                    lemma_holds_split(bytes@, 0, enc_u32(SCHEMA_VERSION), enc_nodes(t));
                    lemma_cat_nodes_same(fs@, t);
                }
            }
        }
        return Err(StoreError::Corrupt);
    }
    proof {
        lemma_holds_split(bytes@, 0, enc_u32(SCHEMA_VERSION), enc_nodes(fs@));
        assert(bytes@ =~= bytes@.subrange(0, bytes@.len() as int));
        assert forall|t: Seq<FunctionNode>| bytes@ == #[trigger] enc_snapshot(SCHEMA_VERSION, t) implies same_nodes(fs@, t) by {
            assert(bytes@.subrange(0, bytes@.len() as int) =~= bytes@);
            lemma_holds_split(bytes@, 0, enc_u32(SCHEMA_VERSION), enc_nodes(t));
        }
    }
    Ok(fs)
}

} // verus!
