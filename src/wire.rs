use vstd::prelude::*;

verus! {

/// The four little-endian bytes of a 32-bit word.
pub open spec fn u32_le(v: u32) -> Seq<u8> {
    seq![
        (v & 0xff) as u8,
        ((v >> 8u32) & 0xff) as u8,
        ((v >> 16u32) & 0xff) as u8,
        ((v >> 24u32) & 0xff) as u8,
    ]
}

/// `s` stands in `b` at position `pos`.
pub open spec fn prefix_at(b: Seq<u8>, pos: int, s: Seq<u8>) -> bool {
    0 <= pos && pos + s.len() <= b.len() && b.subrange(pos, pos + s.len()) =~= s
}

/// The words of `s`, each as four little-endian bytes, one after the other.
pub open spec fn words_body(s: Seq<u32>) -> Seq<u8>
    decreases s.len(),
{
    if s.len() == 0 {
        Seq::empty()
    } else {
        words_body(s.drop_last()) + u32_le(s.last())
    }
}

/// A byte string preceded by its length as a 32-bit little-endian word.
pub open spec fn bytes_enc(s: Seq<u8>) -> Seq<u8> {
    u32_le(s.len() as u32) + s
}

/// A word list preceded by its count as a 32-bit little-endian word.
pub open spec fn words_enc(s: Seq<u32>) -> Seq<u8> {
    u32_le(s.len() as u32) + words_body(s)
}

proof fn lemma_bytes_of_word(v: u32, x0: u32, x1: u32, x2: u32, x3: u32)
    requires
        x0 <= 0xff && x1 <= 0xff && x2 <= 0xff && x3 <= 0xff,
        v == x0 | (x1 << 8u32) | (x2 << 16u32) | (x3 << 24u32),
    ensures
        (v & 0xff) == x0,
        ((v >> 8u32) & 0xff) == x1,
        ((v >> 16u32) & 0xff) == x2,
        ((v >> 24u32) & 0xff) == x3,
{
    assert((v & 0xff) == x0 && ((v >> 8u32) & 0xff) == x1 && ((v >> 16u32) & 0xff) == x2
        && ((v >> 24u32) & 0xff) == x3) by (bit_vector)
        requires
            x0 <= 0xff && x1 <= 0xff && x2 <= 0xff && x3 <= 0xff,
            v == x0 | (x1 << 8u32) | (x2 << 16u32) | (x3 << 24u32),
    ;
}

/// Distinct words have distinct byte forms.
pub proof fn lemma_u32_le_injective(a: u32, b: u32)
    requires
        u32_le(a) == u32_le(b),
    ensures
        a == b,
{
    assert(u32_le(a)[0] == u32_le(b)[0]);
    assert(u32_le(a)[1] == u32_le(b)[1]);
    assert(u32_le(a)[2] == u32_le(b)[2]);
    assert(u32_le(a)[3] == u32_le(b)[3]);
    assert((a & 0xff) <= 0xff && ((a >> 8u32) & 0xff) <= 0xff && ((a >> 16u32) & 0xff) <= 0xff
        && ((a >> 24u32) & 0xff) <= 0xff) by (bit_vector);
    assert((b & 0xff) <= 0xff && ((b >> 8u32) & 0xff) <= 0xff && ((b >> 16u32) & 0xff) <= 0xff
        && ((b >> 24u32) & 0xff) <= 0xff) by (bit_vector);
    assert(a == b) by (bit_vector)
        requires
            (a & 0xff) == (b & 0xff),
            ((a >> 8u32) & 0xff) == ((b >> 8u32) & 0xff),
            ((a >> 16u32) & 0xff) == ((b >> 16u32) & 0xff),
            ((a >> 24u32) & 0xff) == ((b >> 24u32) & 0xff),
    ;
}

pub proof fn lemma_words_body_len(s: Seq<u32>)
    ensures
        words_body(s).len() == 4 * s.len(),
    decreases s.len(),
{
    if s.len() > 0 {
        lemma_words_body_len(s.drop_last());
    }
}

/// Word lists of one length with equal byte forms are equal.
pub proof fn lemma_words_body_injective(a: Seq<u32>, b: Seq<u32>)
    requires
        a.len() == b.len(),
        words_body(a) == words_body(b),
    ensures
        a == b,
    decreases a.len(),
{
    if a.len() > 0 {
        let (pa, pb) = (a.drop_last(), b.drop_last());
        lemma_words_body_len(pa);
        lemma_words_body_len(pb);
        let n: int = 4 * pa.len() as int;
        assert(words_body(pa) =~= words_body(a).subrange(0, n));
        assert(words_body(pb) =~= words_body(b).subrange(0, n));
        assert(u32_le(a.last()) =~= words_body(a).subrange(n, n + 4));
        assert(u32_le(b.last()) =~= words_body(b).subrange(n, n + 4));
        lemma_words_body_injective(pa, pb);
        lemma_u32_le_injective(a.last(), b.last());
        assert(a =~= pa.push(a.last()));
        assert(b =~= pb.push(b.last()));
    } else {
        assert(a =~= b);
    }
}

/// Appends the four little-endian bytes of `v`.
pub fn put_u32(out: &mut Vec<u8>, v: u32)
    ensures
        final(out)@ == old(out)@ + u32_le(v),
{
    out.push((v & 0xff) as u8);
    out.push(((v >> 8u32) & 0xff) as u8);
    out.push(((v >> 16u32) & 0xff) as u8);
    out.push(((v >> 24u32) & 0xff) as u8);
    assert(final(out)@ =~= old(out)@ + u32_le(v));
}

/// Reads the little-endian word at `pos`, if four bytes stand there.
pub fn get_u32(b: &Vec<u8>, pos: usize) -> (r: Option<u32>)
    ensures
        r is Some <==> pos + 4 <= b@.len(),
        r matches Some(v) ==> prefix_at(b@, pos as int, u32_le(v)),
        b@.len() <= usize::MAX,
{
    if pos > b.len() || b.len() - pos < 4 {
        return None;
    }
    let x0 = b[pos] as u32;
    let x1 = b[pos + 1] as u32;
    let x2 = b[pos + 2] as u32;
    let x3 = b[pos + 3] as u32;
    let v: u32 = x0 | (x1 << 8u32) | (x2 << 16u32) | (x3 << 24u32);
    proof {
        lemma_bytes_of_word(v, x0, x1, x2, x3);
        assert(b@.subrange(pos as int, pos + 4) =~= u32_le(v));
    }
    Some(v)
}

/// Appends the word list with its count in front.
pub fn put_words(out: &mut Vec<u8>, s: &Vec<u32>)
    requires
        s@.len() <= u32::MAX,
    ensures
        final(out)@ == old(out)@ + words_enc(s@),
{
    put_u32(out, s.len() as u32);
    put_words_body(out, s);
    assert(final(out)@ =~= old(out)@ + words_enc(s@));
}

/// Appends each word of `s` as four little-endian bytes.
pub fn put_words_body(out: &mut Vec<u8>, s: &Vec<u32>)
    ensures
        final(out)@ == old(out)@ + words_body(s@),
{
    let ghost start = out@;
    let mut i: usize = 0;
    while i < s.len()
        invariant
            i <= s@.len(),
            out@ == start + words_body(s@.subrange(0, i as int)),
        decreases s@.len() - i,
    {
        put_u32(out, s[i]);
        proof {
            let t = s@.subrange(0, i + 1);
            assert(t.drop_last() =~= s@.subrange(0, i as int));
        }
        i = i + 1;
    }
    assert(s@.subrange(0, i as int) =~= s@);
}

/// Appends the byte string with its length in front.
pub fn put_bytes(out: &mut Vec<u8>, s: &Vec<u8>)
    requires
        s@.len() <= u32::MAX,
    ensures
        final(out)@ == old(out)@ + bytes_enc(s@),
{
    put_u32(out, s.len() as u32);
    let ghost mid = out@;
    let mut i: usize = 0;
    while i < s.len()
        invariant
            i <= s@.len(),
            out@ == mid + s@.subrange(0, i as int),
        decreases s@.len() - i,
    {
        out.push(s[i]);
        assert(s@.subrange(0, i + 1) =~= s@.subrange(0, i as int).push(s@[i as int]));
        i = i + 1;
    }
    assert(s@.subrange(0, i as int) =~= s@);
    assert(final(out)@ =~= old(out)@ + bytes_enc(s@));
}

/// A concatenation stands at a position exactly when its parts stand one after the other.
pub proof fn lemma_prefix_split(b: Seq<u8>, pos: int, x: Seq<u8>, y: Seq<u8>)
    ensures
        prefix_at(b, pos, x + y) <==> (prefix_at(b, pos, x) && prefix_at(b, pos + x.len(), y)),
{
    if prefix_at(b, pos, x + y) {
        assert(b.subrange(pos, pos + x.len()) =~= (x + y).subrange(0, x.len() as int));
        assert(b.subrange(pos + x.len(), pos + x.len() + y.len()) =~= (x + y).subrange(
            x.len() as int,
            (x.len() + y.len()) as int,
        ));
    }
    if prefix_at(b, pos, x) && prefix_at(b, pos + x.len(), y) {
        assert(b.subrange(pos, pos + (x + y).len()) =~= b.subrange(pos, pos + x.len())
            + b.subrange(pos + x.len(), pos + x.len() + y.len()));
    }
}

/// At most one word stands at a position.
pub proof fn lemma_u32_unique(b: Seq<u8>, pos: int, x: u32, y: u32)
    requires
        prefix_at(b, pos, u32_le(x)),
        prefix_at(b, pos, u32_le(y)),
    ensures
        x == y,
{
    lemma_u32_le_injective(x, y);
}

/// At most one length-prefixed byte string stands at a position.
pub proof fn lemma_bytes_unique(b: Seq<u8>, pos: int, x: Seq<u8>, y: Seq<u8>)
    requires
        x.len() <= u32::MAX,
        y.len() <= u32::MAX,
        prefix_at(b, pos, bytes_enc(x)),
        prefix_at(b, pos, bytes_enc(y)),
    ensures
        x == y,
{
    lemma_prefix_split(b, pos, u32_le(x.len() as u32), x);
    lemma_prefix_split(b, pos, u32_le(y.len() as u32), y);
    lemma_u32_le_injective(x.len() as u32, y.len() as u32);
}

/// Reads `n` little-endian words at `pos`.
pub fn get_words_body(b: &Vec<u8>, pos: usize, n: u32) -> (r: Option<Vec<u32>>)
    ensures
        r is Some <==> pos + 4 * n <= b@.len(),
        r matches Some(w) ==> w@.len() == n && prefix_at(b@, pos as int, words_body(w@)),
{
    let blen = b.len();
    if pos > blen || (blen - pos) / 4 < n as usize {
        return None;
    }
    let mut out: Vec<u32> = Vec::new();
    let mut i: u32 = 0;
    let mut p: usize = pos;
    while i < n
        invariant
            i <= n,
            blen == b@.len(),
            pos + 4 * n <= b@.len(),
            p == pos + 4 * i,
            out@.len() == i,
            prefix_at(b@, pos as int, words_body(out@)),
        decreases n - i,
    {
        proof {
            lemma_words_body_len(out@);
        }
        let v = get_u32(b, p).unwrap();
        proof {
            lemma_prefix_split(b@, pos as int, words_body(out@), u32_le(v));
            assert(out@.push(v).drop_last() =~= out@);
        }
        out.push(v);
        i = i + 1;
        p = p + 4;
    }
    Some(out)
}

/// Reads the length-prefixed byte string at `pos`, with the position after it.
pub fn get_bytes(b: &Vec<u8>, pos: usize) -> (r: Option<(Vec<u8>, usize)>)
    ensures
        r matches Some((s, end)) ==> s@.len() <= u32::MAX && end == pos + bytes_enc(s@).len()
            && prefix_at(b@, pos as int, bytes_enc(s@)),
        forall|x: Seq<u8>|
            x.len() <= u32::MAX && #[trigger] prefix_at(b@, pos as int, bytes_enc(x)) ==> r is Some,
{
    proof {
        assert forall|x: Seq<u8>|
            x.len() <= u32::MAX && #[trigger] prefix_at(b@, pos as int, bytes_enc(x)) implies pos + 4
            <= b@.len() && pos + 4 + x.len() <= b@.len() by {
            lemma_prefix_split(b@, pos as int, u32_le(x.len() as u32), x);
        }
    }
    let n = match get_u32(b, pos) {
        Some(n) => n,
        None => return None,
    };
    proof {
        assert forall|x: Seq<u8>|
            x.len() <= u32::MAX && #[trigger] prefix_at(b@, pos as int, bytes_enc(x)) implies x.len()
            == n by {
            lemma_prefix_split(b@, pos as int, u32_le(x.len() as u32), x);
            lemma_u32_unique(b@, pos as int, x.len() as u32, n);
        }
    }
    let start = pos + 4;
    if b.len() - start < n as usize {
        return None;
    }
    let end = start + n as usize;
    let mut s: Vec<u8> = Vec::new();
    let mut i: usize = start;
    while i < end
        invariant
            start <= i <= end <= b@.len(),
            s@ =~= b@.subrange(start as int, i as int),
        decreases end - i,
    {
        s.push(b[i]);
        i = i + 1;
    }
    proof {
        lemma_prefix_split(b@, pos as int, u32_le(n), s@);
    }
    Some((s, end))
}

/// Reads the counted word list at `pos`, with the position after it.
pub fn get_words(b: &Vec<u8>, pos: usize) -> (r: Option<(Vec<u32>, usize)>)
    ensures
        r matches Some((w, end)) ==> w@.len() <= u32::MAX && end == pos + words_enc(w@).len()
            && prefix_at(b@, pos as int, words_enc(w@)),
        forall|x: Seq<u32>|
            x.len() <= u32::MAX && #[trigger] prefix_at(b@, pos as int, words_enc(x)) ==> (r matches Some(
                (w, end),
            ) && w@ == x && end == pos + words_enc(x).len()),
{
    proof {
        assert forall|x: Seq<u32>|
            x.len() <= u32::MAX && #[trigger] prefix_at(b@, pos as int, words_enc(x)) implies pos + 4
            <= b@.len() by {
            lemma_prefix_split(b@, pos as int, u32_le(x.len() as u32), words_body(x));
        }
    }
    let n = match get_u32(b, pos) {
        Some(n) => n,
        None => return None,
    };
    proof {
        assert forall|x: Seq<u32>|
            x.len() <= u32::MAX && #[trigger] prefix_at(b@, pos as int, words_enc(x)) implies x.len()
            == n && prefix_at(b@, pos + 4, words_body(x)) && words_body(x).len() == 4 * n by {
            lemma_prefix_split(b@, pos as int, u32_le(x.len() as u32), words_body(x));
            lemma_u32_unique(b@, pos as int, x.len() as u32, n);
            lemma_words_body_len(x);
        }
    }
    let w = match get_words_body(b, pos + 4, n) {
        Some(w) => w,
        None => return None,
    };
    proof {
        lemma_words_body_len(w@);
        lemma_prefix_split(b@, pos as int, u32_le(n), words_body(w@));
        assert forall|x: Seq<u32>|
            x.len() <= u32::MAX && #[trigger] prefix_at(b@, pos as int, words_enc(x)) implies w@ == x by {
            lemma_words_body_len(x);
            assert(b@.subrange(pos + 4, pos + 4 + 4 * n) == words_body(x));
            lemma_words_body_injective(w@, x);
        }
    }
    let end = pos + 4 + 4 * (n as usize);
    Some((w, end))
}

/// A copy of the bytes.
pub fn clone_bytes(v: &Vec<u8>) -> (r: Vec<u8>)
    ensures
        r@ == v@,
{
    let mut r: Vec<u8> = Vec::new();
    let mut i: usize = 0;
    while i < v.len()
        invariant
            i <= v@.len(),
            r@ == v@.subrange(0, i as int),
        decreases v@.len() - i,
    {
        r.push(v[i]);
        assert(v@.subrange(0, i + 1) =~= v@.subrange(0, i as int).push(v@[i as int]));
        i = i + 1;
    }
    assert(v@.subrange(0, i as int) =~= v@);
    r
}

/// Whether two byte strings are equal.
pub fn bytes_equal(a: &Vec<u8>, b: &Vec<u8>) -> (r: bool)
    ensures
        r == (a@ == b@),
{
    if a.len() != b.len() {
        return false;
    }
    let mut i: usize = 0;
    while i < a.len()
        invariant
            i <= a@.len() == b@.len(),
            a@.subrange(0, i as int) == b@.subrange(0, i as int),
        decreases a@.len() - i,
    {
        if a[i] != b[i] {
            return false;
        }
        assert(a@.subrange(0, i + 1) =~= a@.subrange(0, i as int).push(a@[i as int]));
        assert(b@.subrange(0, i + 1) =~= b@.subrange(0, i as int).push(b@[i as int]));
        i = i + 1;
    }
    assert(a@ =~= a@.subrange(0, i as int));
    assert(b@ =~= b@.subrange(0, i as int));
    true
}

} // verus!
