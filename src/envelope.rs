use vstd::prelude::*;

use crate::error::FerryError;
use crate::wire::{
    bytes_enc, get_bytes, get_u32, get_words, get_words_body, lemma_bytes_unique,
    bytes_equal, lemma_prefix_split, lemma_u32_unique, lemma_words_body_injective, lemma_words_body_len,
    prefix_at, put_bytes, put_u32, put_words, put_words_body, u32_le, words_body, words_enc,
};

verus! {

/// One key and its value in a string map; text is carried as its UTF-8 bytes.
pub struct Entry {
    pub key: Vec<u8>,
    pub value: Vec<u8>,
}

/// The map as the sequence of its entries' key and value bytes, in order.
pub open spec fn entries_view(s: Seq<Entry>) -> Seq<(Seq<u8>, Seq<u8>)> {
    s.map_values(|e: Entry| (e.key@, e.value@))
}

/// Every key and value of the map fits a 32-bit length, and so does the count.
pub open spec fn dict_fits(d: Seq<(Seq<u8>, Seq<u8>)>) -> bool {
    d.len() <= u32::MAX && forall|i: int|
        0 <= i < d.len() ==> (#[trigger] d[i]).0.len() <= u32::MAX && d[i].1.len() <= u32::MAX
}

pub open spec fn entry_enc(e: (Seq<u8>, Seq<u8>)) -> Seq<u8> {
    bytes_enc(e.0) + bytes_enc(e.1)
}

/// The entries, each as its key and then its value, one after the other.
pub open spec fn dict_body(d: Seq<(Seq<u8>, Seq<u8>)>) -> Seq<u8>
    decreases d.len(),
{
    if d.len() == 0 {
        Seq::empty()
    } else {
        dict_body(d.drop_last()) + entry_enc(d.last())
    }
}

/// A string map on the wire: its entry count, then its entries.
pub open spec fn dict_enc(d: Seq<(Seq<u8>, Seq<u8>)>) -> Seq<u8> {
    u32_le(d.len() as u32) + dict_body(d)
}

proof fn lemma_dict_body_prefix(d: Seq<(Seq<u8>, Seq<u8>)>, i: int)
    requires
        0 <= i <= d.len(),
    ensures
        dict_body(d.subrange(0, i)).len() <= dict_body(d).len(),
        dict_body(d).subrange(0, dict_body(d.subrange(0, i)).len() as int) == dict_body(
            d.subrange(0, i),
        ),
    decreases d.len() - i,
{
    if i == d.len() {
        assert(d.subrange(0, i) =~= d);
        assert(dict_body(d).subrange(0, dict_body(d).len() as int) =~= dict_body(d));
    } else {
        lemma_dict_body_prefix(d, i + 1);
        let a = d.subrange(0, i);
        let c = d.subrange(0, i + 1);
        assert(c.drop_last() =~= a);
        assert(dict_body(c).subrange(0, dict_body(a).len() as int) =~= dict_body(a));
        assert(dict_body(d).subrange(0, dict_body(a).len() as int) =~= dict_body(d).subrange(
            0,
            dict_body(c).len() as int,
        ).subrange(0, dict_body(a).len() as int));
    }
}

proof fn lemma_prefix_of_prefix(b: Seq<u8>, pos: int, s: Seq<u8>, n: int)
    requires
        prefix_at(b, pos, s),
        0 <= n <= s.len(),
    ensures
        prefix_at(b, pos, s.subrange(0, n)),
{
    assert(b.subrange(pos, pos + n) =~= b.subrange(pos, pos + s.len()).subrange(0, n));
}

/// At most one string map of a given count stands at a position.
proof fn lemma_dict_body_unique(
    b: Seq<u8>,
    pos: int,
    x: Seq<(Seq<u8>, Seq<u8>)>,
    y: Seq<(Seq<u8>, Seq<u8>)>,
)
    requires
        x.len() == y.len(),
        dict_fits(x),
        dict_fits(y),
        prefix_at(b, pos, dict_body(x)),
        prefix_at(b, pos, dict_body(y)),
    ensures
        x == y,
    decreases x.len(),
{
    if x.len() == 0 {
        assert(x =~= y);
    } else {
        let (px, py) = (x.drop_last(), y.drop_last());
        let (ex, ey) = (x.last(), y.last());
        assert(dict_fits(px)) by {
            assert forall|i: int| 0 <= i < px.len() implies (#[trigger] px[i]).0.len() <= u32::MAX
                && px[i].1.len() <= u32::MAX by {
                assert(px[i] == x[i]);
            }
        }
        assert(dict_fits(py)) by {
            assert forall|i: int| 0 <= i < py.len() implies (#[trigger] py[i]).0.len() <= u32::MAX
                && py[i].1.len() <= u32::MAX by {
                assert(py[i] == y[i]);
            }
        }
        lemma_prefix_split(b, pos, dict_body(px), entry_enc(ex));
        lemma_prefix_split(b, pos, dict_body(py), entry_enc(ey));
        lemma_dict_body_unique(b, pos, px, py);
        let q = pos + dict_body(px).len();
        lemma_prefix_split(b, q, bytes_enc(ex.0), bytes_enc(ex.1));
        lemma_prefix_split(b, q, bytes_enc(ey.0), bytes_enc(ey.1));
        assert(x[x.len() - 1] == ex && y[y.len() - 1] == ey);
        lemma_bytes_unique(b, q, ex.0, ey.0);
        lemma_bytes_unique(b, q + bytes_enc(ex.0).len(), ex.1, ey.1);
        assert(x =~= px.push(ex));
        assert(y =~= py.push(ey));
    }
}

/// At most one string map stands at a position.
pub proof fn lemma_dict_unique(
    b: Seq<u8>,
    pos: int,
    x: Seq<(Seq<u8>, Seq<u8>)>,
    y: Seq<(Seq<u8>, Seq<u8>)>,
)
    requires
        dict_fits(x),
        dict_fits(y),
        prefix_at(b, pos, dict_enc(x)),
        prefix_at(b, pos, dict_enc(y)),
    ensures
        x == y,
{
    lemma_prefix_split(b, pos, u32_le(x.len() as u32), dict_body(x));
    lemma_prefix_split(b, pos, u32_le(y.len() as u32), dict_body(y));
    lemma_u32_unique(b, pos, x.len() as u32, y.len() as u32);
    lemma_dict_body_unique(b, pos + 4, x, y);
}

/// Whether every key and value fits a 32-bit length, and so does the count.
pub fn dict_fits_exec(d: &Vec<Entry>) -> (r: bool)
    ensures
        r == dict_fits(entries_view(d@)),
{
    if d.len() > u32::MAX as usize {
        return false;
    }
    let mut i: usize = 0;
    while i < d.len()
        invariant
            i <= d@.len() <= u32::MAX,
            forall|j: int|
                0 <= j < i ==> (#[trigger] d@[j]).key@.len() <= u32::MAX && d@[j].value@.len()
                    <= u32::MAX,
        decreases d@.len() - i,
    {
        if d[i].key.len() > u32::MAX as usize || d[i].value.len() > u32::MAX as usize {
            assert(entries_view(d@)[i as int] == (d@[i as int].key@, d@[i as int].value@));
            return false;
        }
        i = i + 1;
    }
    assert forall|j: int| 0 <= j < entries_view(d@).len() implies (
    #[trigger] entries_view(d@)[j]).0.len() <= u32::MAX && entries_view(d@)[j].1.len()
        <= u32::MAX by {
        assert(entries_view(d@)[j] == (d@[j].key@, d@[j].value@));
    }
    true
}

/// Appends the string map with its count in front.
pub fn put_dict(out: &mut Vec<u8>, d: &Vec<Entry>)
    requires
        dict_fits(entries_view(d@)),
    ensures
        final(out)@ == old(out)@ + dict_enc(entries_view(d@)),
{
    let ghost v = entries_view(d@);
    put_u32(out, d.len() as u32);
    let ghost mid = out@;
    let mut i: usize = 0;
    while i < d.len()
        invariant
            i <= d@.len(),
            v == entries_view(d@),
            dict_fits(v),
            out@ == mid + dict_body(v.subrange(0, i as int)),
        decreases d@.len() - i,
    {
        assert(v[i as int] == (d@[i as int].key@, d@[i as int].value@));
        put_bytes(out, &d[i].key);
        put_bytes(out, &d[i].value);
        assert(v.subrange(0, i + 1).drop_last() =~= v.subrange(0, i as int));
        assert(out@ =~= mid + dict_body(v.subrange(0, i + 1)));
        i = i + 1;
    }
    assert(v.subrange(0, i as int) =~= v);
    assert(final(out)@ =~= old(out)@ + dict_enc(v));
}

/// Reads the string map at `pos`, with the position after it.
pub fn get_dict(b: &Vec<u8>, pos: usize) -> (r: Option<(Vec<Entry>, usize)>)
    ensures
        r matches Some((d, end)) ==> dict_fits(entries_view(d@)) && end == pos + dict_enc(
            entries_view(d@),
        ).len() && prefix_at(b@, pos as int, dict_enc(entries_view(d@))),
        forall|x: Seq<(Seq<u8>, Seq<u8>)>|
            dict_fits(x) && #[trigger] prefix_at(b@, pos as int, dict_enc(x)) ==> (r matches Some(
                (d, end),
            ) && entries_view(d@) == x && end == pos + dict_enc(x).len()),
{
    let blen = b.len();
    let n = match get_u32(b, pos) {
        Some(n) => n,
        None => {
            proof {
                assert forall|x: Seq<(Seq<u8>, Seq<u8>)>|
                    dict_fits(x) && #[trigger] prefix_at(b@, pos as int, dict_enc(x)) implies false by {
                    lemma_prefix_split(b@, pos as int, u32_le(x.len() as u32), dict_body(x));
                }
            }
            return None;
        },
    };
    let start: usize = pos + 4;
    proof {
        assert forall|x: Seq<(Seq<u8>, Seq<u8>)>|
            dict_fits(x) && #[trigger] prefix_at(b@, pos as int, dict_enc(x)) implies x.len() == n
            && prefix_at(b@, start as int, dict_body(x)) by {
            lemma_prefix_split(b@, pos as int, u32_le(x.len() as u32), dict_body(x));
            lemma_u32_unique(b@, pos as int, x.len() as u32, n);
        }
    }
    let mut out: Vec<Entry> = Vec::new();
    let mut p: usize = start;
    let mut i: u32 = 0;
    while i < n
        invariant
            i <= n,
            blen == b@.len(),
            out@.len() == i,
            dict_fits(entries_view(out@)),
            p == start + dict_body(entries_view(out@)).len(),
            prefix_at(b@, start as int, dict_body(entries_view(out@))),
            forall|x: Seq<(Seq<u8>, Seq<u8>)>|
                dict_fits(x) && #[trigger] prefix_at(b@, pos as int, dict_enc(x)) ==> x.len() == n
                    && prefix_at(b@, start as int, dict_body(x)) && entries_view(out@)
                    == x.subrange(0, i as int),
        decreases n - i,
    {
        let ghost ov = entries_view(out@);
        proof {
            assert forall|x: Seq<(Seq<u8>, Seq<u8>)>|
                dict_fits(x) && #[trigger] prefix_at(b@, pos as int, dict_enc(x)) implies prefix_at(
                b@,
                p as int,
                bytes_enc(x[i as int].0),
            ) && prefix_at(b@, p + bytes_enc(x[i as int].0).len(), bytes_enc(x[i as int].1))
                && x[i as int].0.len() <= u32::MAX && x[i as int].1.len() <= u32::MAX by {
                let c = x.subrange(0, i + 1);
                lemma_dict_body_prefix(x, i + 1);
                lemma_prefix_of_prefix(b@, start as int, dict_body(x), dict_body(c).len() as int);
                assert(c.drop_last() =~= x.subrange(0, i as int));
                assert(c.last() == x[i as int]);
                lemma_prefix_split(b@, start as int, dict_body(ov), entry_enc(x[i as int]));
                lemma_prefix_split(b@, p as int, bytes_enc(x[i as int].0), bytes_enc(x[i as int].1));
            }
        }
        let (k, p1) = match get_bytes(b, p) {
            Some(kp) => kp,
            None => return None,
        };
        proof {
            assert forall|x: Seq<(Seq<u8>, Seq<u8>)>|
                dict_fits(x) && #[trigger] prefix_at(b@, pos as int, dict_enc(x)) implies k@ == x[i as int].0 by {
                lemma_bytes_unique(b@, p as int, k@, x[i as int].0);
            }
        }
        let (v, p2) = match get_bytes(b, p1) {
            Some(vp) => vp,
            None => return None,
        };
        proof {
            assert forall|x: Seq<(Seq<u8>, Seq<u8>)>|
                dict_fits(x) && #[trigger] prefix_at(b@, pos as int, dict_enc(x)) implies v@ == x[i as int].1 by {
                lemma_bytes_unique(b@, p1 as int, v@, x[i as int].1);
            }
        }
        let ghost e = (k@, v@);
        out.push(Entry { key: k, value: v });
        proof {
            let nv = entries_view(out@);
            assert(nv =~= ov.push(e));
            assert(nv.drop_last() =~= ov);
            lemma_prefix_split(b@, p as int, bytes_enc(e.0), bytes_enc(e.1));
            lemma_prefix_split(b@, start as int, dict_body(ov), entry_enc(e));
            assert forall|j: int| 0 <= j < nv.len() implies (#[trigger] nv[j]).0.len() <= u32::MAX
                && nv[j].1.len() <= u32::MAX by {
                if j < ov.len() {
                    assert(nv[j] == ov[j]);
                }
            }
            assert forall|x: Seq<(Seq<u8>, Seq<u8>)>|
                dict_fits(x) && #[trigger] prefix_at(b@, pos as int, dict_enc(x)) implies nv
                == x.subrange(0, i + 1) by {
                assert(x.subrange(0, i + 1) =~= x.subrange(0, i as int).push(x[i as int]));
            }
        }
        p = p2;
        i = i + 1;
    }
    proof {
        let ov = entries_view(out@);
        lemma_prefix_split(b@, pos as int, u32_le(n), dict_body(ov));
        assert forall|x: Seq<(Seq<u8>, Seq<u8>)>|
            dict_fits(x) && #[trigger] prefix_at(b@, pos as int, dict_enc(x)) implies ov == x by {
            assert(x.subrange(0, n as int) =~= x);
        }
    }
    Some((out, p))
}

/// The element type named in every numeric array: the text `float32`.
pub open spec fn dtype_bytes() -> Seq<u8> {
    seq![102u8, 108u8, 111u8, 97u8, 116u8, 51u8, 50u8]
}

/// The shape of a one-dimensional array of `n` elements: one 64-bit little-endian count.
pub open spec fn shape_bytes(n: nat) -> Seq<u8> {
    u32_le(n as u32) + u32_le(0)
}

/// A numeric array of 32-bit floats on the wire: its element type, its shape and its data,
/// each preceded by its length in bytes.
pub open spec fn array_enc(s: Seq<u32>) -> Seq<u8> {
    bytes_enc(dtype_bytes()) + bytes_enc(shape_bytes(s.len())) + u32_le((4 * s.len()) as u32)
        + words_body(s)
}

/// The data of the array fits a 32-bit length.
pub open spec fn array_fits(s: Seq<u32>) -> bool {
    4 * s.len() <= u32::MAX
}

fn dtype_vec() -> (r: Vec<u8>)
    ensures
        r@ == dtype_bytes(),
{
    let r: Vec<u8> = vec![102u8, 108u8, 111u8, 97u8, 116u8, 51u8, 50u8];
    assert(r@ =~= dtype_bytes());
    r
}

/// Appends the numeric array that carries `s`.
pub fn put_array(out: &mut Vec<u8>, s: &Vec<u32>)
    requires
        array_fits(s@),
    ensures
        final(out)@ == old(out)@ + array_enc(s@),
{
    let dtype = dtype_vec();
    put_bytes(out, &dtype);
    let mut shape: Vec<u8> = Vec::new();
    put_u32(&mut shape, s.len() as u32);
    put_u32(&mut shape, 0);
    assert(shape@ =~= shape_bytes(s@.len()));
    put_bytes(out, &shape);
    put_u32(out, (4 * s.len()) as u32);
    put_words_body(out, s);
    assert(final(out)@ =~= old(out)@ + array_enc(s@));
}

/// At most one numeric array stands at a position.
pub proof fn lemma_array_unique(b: Seq<u8>, pos: int, x: Seq<u32>, y: Seq<u32>)
    requires
        array_fits(x),
        array_fits(y),
        prefix_at(b, pos, array_enc(x)),
        prefix_at(b, pos, array_enc(y)),
    ensures
        x == y,
{
    let h = bytes_enc(dtype_bytes());
    let q = pos + h.len();
    array_split(b, pos, x);
    array_split(b, pos, y);
    lemma_bytes_unique(b, q, shape_bytes(x.len()), shape_bytes(y.len()));
    assert(shape_bytes(x.len()).subrange(0, 4) =~= u32_le(x.len() as u32));
    assert(shape_bytes(y.len()).subrange(0, 4) =~= u32_le(y.len() as u32));
    crate::wire::lemma_u32_le_injective(x.len() as u32, y.len() as u32);
    let r = q + bytes_enc(shape_bytes(x.len())).len() + 4;
    lemma_words_body_len(x);
    lemma_words_body_len(y);
    assert(b.subrange(r, r + 4 * x.len()) == words_body(x));
    assert(b.subrange(r, r + 4 * y.len()) == words_body(y));
    lemma_words_body_injective(x, y);
}

proof fn array_split(b: Seq<u8>, pos: int, x: Seq<u32>)
    requires
        prefix_at(b, pos, array_enc(x)),
    ensures
        prefix_at(b, pos, bytes_enc(dtype_bytes())),
        prefix_at(b, pos + 11, bytes_enc(shape_bytes(x.len()))),
        prefix_at(b, pos + 23, u32_le((4 * x.len()) as u32)),
        prefix_at(b, pos + 27, words_body(x)),
{
    let h = bytes_enc(dtype_bytes());
    let sh = bytes_enc(shape_bytes(x.len()));
    let c = u32_le((4 * x.len()) as u32);
    assert(h.len() == 11);
    assert(sh.len() == 12);
    lemma_prefix_split(b, pos, h + sh + c, words_body(x));
    lemma_prefix_split(b, pos, h + sh, c);
    lemma_prefix_split(b, pos, h, sh);
}

/// Reads the numeric array at `pos`, with the position after it.
pub fn get_array(b: &Vec<u8>, pos: usize) -> (r: Option<(Vec<u32>, usize)>)
    ensures
        r matches Some((s, end)) ==> array_fits(s@) && end == pos + array_enc(s@).len()
            && prefix_at(b@, pos as int, array_enc(s@)),
        forall|x: Seq<u32>|
            array_fits(x) && #[trigger] prefix_at(b@, pos as int, array_enc(x)) ==> (r matches Some(
                (s, end),
            ) && s@ == x && end == pos + array_enc(x).len()),
{
    proof {
        assert forall|x: Seq<u32>|
            array_fits(x) && #[trigger] prefix_at(b@, pos as int, array_enc(x)) implies prefix_at(
            b@,
            pos as int,
            bytes_enc(dtype_bytes()),
        ) && prefix_at(b@, pos + 11, bytes_enc(shape_bytes(x.len()))) && prefix_at(
            b@,
            pos + 23,
            u32_le((4 * x.len()) as u32),
        ) && prefix_at(b@, pos + 27, words_body(x)) by {
            array_split(b@, pos as int, x);
        }
    }
    let (dtype, p1) = match get_bytes(b, pos) {
        Some(dp) => dp,
        None => return None,
    };
    let expected = dtype_vec();
    if !bytes_equal(&dtype, &expected) {
        proof {
            assert forall|x: Seq<u32>|
                array_fits(x) && #[trigger] prefix_at(b@, pos as int, array_enc(x)) implies false by {
                lemma_bytes_unique(b@, pos as int, dtype@, dtype_bytes());
            }
        }
        return None;
    }
    assert(p1 == pos + 11);
    let (shape, p2) = match get_bytes(b, p1) {
        Some(sp) => sp,
        None => return None,
    };
    proof {
        assert forall|x: Seq<u32>|
            array_fits(x) && #[trigger] prefix_at(b@, pos as int, array_enc(x)) implies shape@
            == shape_bytes(x.len()) by {
            lemma_bytes_unique(b@, p1 as int, shape@, shape_bytes(x.len()));
        }
    }
    if shape.len() != 8 {
        return None;
    }
    let n = get_u32(&shape, 0).unwrap();
    let z = get_u32(&shape, 4).unwrap();
    proof {
        assert forall|x: Seq<u32>|
            array_fits(x) && #[trigger] prefix_at(b@, pos as int, array_enc(x)) implies x.len() == n
            && z == 0 by {
            assert(prefix_at(shape@, 0, u32_le(x.len() as u32)));
            assert(prefix_at(shape@, 4, u32_le(0)));
            lemma_u32_unique(shape@, 0, n, x.len() as u32);
            lemma_u32_unique(shape@, 4, z, 0);
        }
    }
    if z != 0 || n > u32::MAX / 4 {
        return None;
    }
    let m = match get_u32(b, p2) {
        Some(m) => m,
        None => return None,
    };
    proof {
        assert forall|x: Seq<u32>|
            array_fits(x) && #[trigger] prefix_at(b@, pos as int, array_enc(x)) implies m == 4
            * n by {
            lemma_u32_unique(b@, p2 as int, m, (4 * x.len()) as u32);
        }
    }
    if m != 4 * n {
        return None;
    }
    let p3 = p2 + 4;
    let s = match get_words_body(b, p3, n) {
        Some(s) => s,
        None => {
            proof {
                assert forall|x: Seq<u32>|
                    array_fits(x) && #[trigger] prefix_at(b@, pos as int, array_enc(x)) implies false by {
                    lemma_words_body_len(x);
                }
            }
            return None;
        },
    };
    proof {
        lemma_words_body_len(s@);
        assert(shape@ =~= shape_bytes(s@.len()));
        let h = bytes_enc(dtype_bytes());
        let sh = bytes_enc(shape_bytes(s@.len()));
        let c = u32_le((4 * s@.len()) as u32);
        lemma_prefix_split(b@, pos as int, h, sh);
        lemma_prefix_split(b@, pos as int, h + sh, c);
        lemma_prefix_split(b@, pos as int, h + sh + c, words_body(s@));
        assert forall|x: Seq<u32>|
            array_fits(x) && #[trigger] prefix_at(b@, pos as int, array_enc(x)) implies s@ == x by {
            lemma_words_body_len(x);
            assert(b@.subrange(p3 as int, p3 + 4 * n) == words_body(x));
            lemma_words_body_injective(s@, x);
        }
    }
    Some((s, p3 + 4 * (n as usize)))
}

/// The content of a message, with arrays and maps as sequences and floats as their bit patterns.
pub enum Message {
    Request,
    Action(Seq<u32>),
    ResetArgs(Option<i32>, Seq<(Seq<u8>, Seq<u8>)>),
    Close(bool),
    StepReturn(Seq<u32>, u32, bool, bool, Seq<(Seq<u8>, Seq<u8>)>),
    ResetReturn(Seq<u32>, Seq<(Seq<u8>, Seq<u8>)>),
}

/// A message between the two peers: exactly one of six kinds.
/// Floats travel as their IEEE-754 bit patterns. The byte form is this library's own tagged
/// layout (see `enc`); it is not protobuf's encoding and does not interoperate with a peer
/// that speaks protobuf.
pub enum Envelope {
    /// The sender is ready for its next command.
    Request,
    Action { values: Vec<u32> },
    /// `None` stands for no seed; on the wire it is the seed word -1.
    ResetArgs { seed: Option<i32>, options: Vec<Entry> },
    Close { flag: bool },
    StepReturn {
        obs: Vec<u32>,
        reward: u32,
        terminated: bool,
        truncated: bool,
        info: Vec<Entry>,
    },
    ResetReturn { obs: Vec<u32>, info: Vec<Entry> },
}

impl View for Envelope {
    type V = Message;

    open spec fn view(&self) -> Message {
        match self {
            Envelope::Request => Message::Request,
            Envelope::Action { values } => Message::Action(values@),
            Envelope::ResetArgs { seed, options } => Message::ResetArgs(
                *seed,
                entries_view(options@),
            ),
            Envelope::Close { flag } => Message::Close(*flag),
            Envelope::StepReturn { obs, reward, terminated, truncated, info } => Message::StepReturn(
                obs@,
                *reward,
                *terminated,
                *truncated,
                entries_view(info@),
            ),
            Envelope::ResetReturn { obs, info } => Message::ResetReturn(obs@, entries_view(info@)),
        }
    }
}

/// The seed word on the wire: -1 when there is no seed.
pub open spec fn seed_word(s: Option<i32>) -> u32 {
    match s {
        Some(v) => if v >= 0 {
            v as u32
        } else {
            (v + 0x1_0000_0000) as u32
        },
        None => u32::MAX,
    }
}

/// The seed that a seed word stands for.
pub open spec fn seed_of(w: u32) -> Option<i32> {
    if w == u32::MAX {
        None
    } else if w <= i32::MAX {
        Some(w as i32)
    } else {
        Some((w - 0x1_0000_0000) as i32)
    }
}

pub open spec fn bool_byte(f: bool) -> u8 {
    if f {
        1
    } else {
        0
    }
}

pub open spec fn tag_of(m: Message) -> u8 {
    match m {
        Message::Request => 0,
        Message::Action(_) => 1,
        Message::ResetArgs(_, _) => 2,
        Message::Close(_) => 3,
        Message::StepReturn(_, _, _, _, _) => 4,
        Message::ResetReturn(_, _) => 5,
    }
}

pub open spec fn reset_args_body(s: Option<i32>, o: Seq<(Seq<u8>, Seq<u8>)>) -> Seq<u8> {
    u32_le(seed_word(s)) + dict_enc(o)
}

pub open spec fn step_return_body(
    obs: Seq<u32>,
    reward: u32,
    terminated: bool,
    truncated: bool,
    info: Seq<(Seq<u8>, Seq<u8>)>,
) -> Seq<u8> {
    array_enc(obs) + u32_le(reward) + seq![bool_byte(terminated), bool_byte(truncated)] + dict_enc(
        info,
    )
}

pub open spec fn reset_return_body(obs: Seq<u32>, info: Seq<(Seq<u8>, Seq<u8>)>) -> Seq<u8> {
    array_enc(obs) + dict_enc(info)
}

/// What follows the tag byte.
pub open spec fn body_enc(m: Message) -> Seq<u8> {
    match m {
        Message::Request => Seq::empty(),
        Message::Action(v) => words_enc(v),
        Message::ResetArgs(s, o) => reset_args_body(s, o),
        Message::Close(f) => seq![bool_byte(f)],
        Message::StepReturn(obs, r, te, tr, info) => step_return_body(obs, r, te, tr, info),
        Message::ResetReturn(obs, info) => reset_return_body(obs, info),
    }
}

/// A message on the wire: one tag byte naming its kind, then its fields in order, with
/// 32-bit little-endian lengths, counts and words. This layout is not protobuf's encoding, and
/// a peer that speaks protobuf cannot read it.
pub open spec fn enc(m: Message) -> Seq<u8> {
    seq![tag_of(m)] + body_enc(m)
}

/// Whether the message has an encoding: every length fits its 32-bit field, and a seed is
/// never -1, the word that stands for no seed.
pub open spec fn encodable(m: Message) -> bool {
    match m {
        Message::Action(v) => v.len() <= u32::MAX,
        Message::ResetArgs(s, o) => s != Some(-1i32) && dict_fits(o),
        Message::StepReturn(obs, _, _, _, info) => array_fits(obs) && dict_fits(info),
        Message::ResetReturn(obs, info) => array_fits(obs) && dict_fits(info),
        _ => true,
    }
}

/// The message that `b` encodes, if any.
pub open spec fn decode_spec(b: Seq<u8>) -> Option<Message> {
    if exists|m: Message| encodable(m) && enc(m) == b {
        Some(choose|m: Message| encodable(m) && enc(m) == b)
    } else {
        None
    }
}

/// Writes the message as bytes.
pub fn encode(e: &Envelope) -> (r: Result<Vec<u8>, FerryError>)
    ensures
        encodable(e@) <==> r is Ok,
        r matches Ok(b) ==> b@ == enc(e@),
        r matches Err(x) ==> x == FerryError::Encoding,
{
    let mut out: Vec<u8> = Vec::new();
    match e {
        Envelope::Request => {
            out.push(0u8);
        },
        Envelope::Action { values } => {
            if values.len() > u32::MAX as usize {
                return Err(FerryError::Encoding);
            }
            out.push(1u8);
            put_words(&mut out, values);
        },
        Envelope::ResetArgs { seed, options } => {
            if !dict_fits_exec(options) {
                return Err(FerryError::Encoding);
            }
            let w: u32 = match seed {
                Some(v) => {
                    if *v == -1i32 {
                        return Err(FerryError::Encoding);
                    }
                    if *v >= 0 {
                        *v as u32
                    } else {
                        u32::MAX - ((-(*v + 1)) as u32)
                    }
                },
                None => u32::MAX,
            };
            out.push(2u8);
            put_u32(&mut out, w);
            put_dict(&mut out, options);
        },
        Envelope::Close { flag } => {
            out.push(3u8);
            out.push(if *flag { 1u8 } else { 0u8 });
        },
        Envelope::StepReturn { obs, reward, terminated, truncated, info } => {
            if obs.len() > (u32::MAX / 4) as usize || !dict_fits_exec(info) {
                return Err(FerryError::Encoding);
            }
            out.push(4u8);
            put_array(&mut out, obs);
            put_u32(&mut out, *reward);
            out.push(if *terminated { 1u8 } else { 0u8 });
            out.push(if *truncated { 1u8 } else { 0u8 });
            put_dict(&mut out, info);
        },
        Envelope::ResetReturn { obs, info } => {
            if obs.len() > (u32::MAX / 4) as usize || !dict_fits_exec(info) {
                return Err(FerryError::Encoding);
            }
            out.push(5u8);
            put_array(&mut out, obs);
            put_dict(&mut out, info);
        },
    }
    assert(out@ =~= enc(e@));
    Ok(out)
}

proof fn lemma_seed_word(s: Option<i32>, w: u32)
    ensures
        seed_word(seed_of(w)) == w,
        seed_of(w) != Some(-1i32),
        s != Some(-1i32) && seed_word(s) == w ==> s == seed_of(w),
{
}

fn get_bool(b: &Vec<u8>, pos: usize) -> (r: Option<bool>)
    ensures
        r matches Some(f) ==> prefix_at(b@, pos as int, seq![bool_byte(f)]),
        forall|f: bool| #[trigger] prefix_at(b@, pos as int, seq![bool_byte(f)]) ==> r == Some(f),
{
    if pos >= b.len() {
        return None;
    }
    let x = b[pos];
    proof {
        assert forall|f: bool| #[trigger] prefix_at(b@, pos as int, seq![bool_byte(f)]) implies x
            == bool_byte(f) by {
            assert(b@.subrange(pos as int, pos + 1)[0] == x);
        }
    }
    if x == 0 {
        assert(b@.subrange(pos as int, pos + 1) =~= seq![bool_byte(false)]);
        Some(false)
    } else if x == 1 {
        assert(b@.subrange(pos as int, pos + 1) =~= seq![bool_byte(true)]);
        Some(true)
    } else {
        None
    }
}

fn get_reset_args(b: &Vec<u8>, pos: usize) -> (r: Option<(Option<i32>, Vec<Entry>, usize)>)
    ensures
        r matches Some((s, o, end)) ==> s != Some(-1i32) && dict_fits(entries_view(o@)) && end
            == pos + reset_args_body(s, entries_view(o@)).len() && prefix_at(
            b@,
            pos as int,
            reset_args_body(s, entries_view(o@)),
        ),
        forall|s: Option<i32>, o: Seq<(Seq<u8>, Seq<u8>)>|
            s != Some(-1i32) && dict_fits(o) && #[trigger] prefix_at(
                b@,
                pos as int,
                reset_args_body(s, o),
            ) ==> (r matches Some((s2, o2, end)) && s2 == s && entries_view(o2@) == o && end == pos
                + reset_args_body(s, o).len()),
{
    proof {
        assert forall|s: Option<i32>, o: Seq<(Seq<u8>, Seq<u8>)>|
            s != Some(-1i32) && dict_fits(o) && #[trigger] prefix_at(
                b@,
                pos as int,
                reset_args_body(s, o),
            ) implies prefix_at(b@, pos as int, u32_le(seed_word(s))) && prefix_at(
            b@,
            pos + 4,
            dict_enc(o),
        ) by {
            lemma_prefix_split(b@, pos as int, u32_le(seed_word(s)), dict_enc(o));
        }
    }
    let w = match get_u32(b, pos) {
        Some(w) => w,
        None => return None,
    };
    let seed: Option<i32> = if w == u32::MAX {
        None
    } else if w <= i32::MAX as u32 {
        Some(w as i32)
    } else {
        Some(-((u32::MAX - w) as i32) - 1)
    };
    assert(seed == seed_of(w));
    proof {
        lemma_seed_word(seed, w);
        assert forall|s: Option<i32>, o: Seq<(Seq<u8>, Seq<u8>)>|
            s != Some(-1i32) && dict_fits(o) && #[trigger] prefix_at(
                b@,
                pos as int,
                reset_args_body(s, o),
            ) implies s == seed by {
            lemma_u32_unique(b@, pos as int, w, seed_word(s));
            lemma_seed_word(s, w);
        }
    }
    let (o, end) = match get_dict(b, pos + 4) {
        Some(oe) => oe,
        None => return None,
    };
    proof {
        lemma_prefix_split(b@, pos as int, u32_le(seed_word(seed)), dict_enc(entries_view(o@)));
    }
    Some((seed, o, end))
}

#[verifier::rlimit(40)]
fn get_step_return(b: &Vec<u8>, pos: usize) -> (r: Option<(Envelope, usize)>)
    ensures
        r matches Some((e, end)) ==> e@ matches Message::StepReturn(obs, rw, te, tr, info) && encodable(e@)
            && end == pos + body_enc(e@).len() && prefix_at(b@, pos as int, body_enc(e@)),
        forall|obs: Seq<u32>, rw: u32, te: bool, tr: bool, info: Seq<(Seq<u8>, Seq<u8>)>|
            array_fits(obs) && dict_fits(info) && #[trigger] prefix_at(
                b@,
                pos as int,
                step_return_body(obs, rw, te, tr, info),
            ) ==> (r matches Some((e, end)) && e@ == Message::StepReturn(obs, rw, te, tr, info)
                && end == pos + step_return_body(obs, rw, te, tr, info).len()),
{
    proof {
        assert forall|obs: Seq<u32>, rw: u32, te: bool, tr: bool, info: Seq<(Seq<u8>, Seq<u8>)>|
            array_fits(obs) && dict_fits(info) && #[trigger] prefix_at(
                b@,
                pos as int,
                step_return_body(obs, rw, te, tr, info),
            ) implies ({
            let p1 = pos + array_enc(obs).len();
            prefix_at(b@, pos as int, array_enc(obs)) && prefix_at(b@, p1, u32_le(rw)) && prefix_at(
                b@,
                p1 + 4,
                seq![bool_byte(te)],
            ) && prefix_at(b@, p1 + 5, seq![bool_byte(tr)]) && prefix_at(b@, p1 + 6, dict_enc(info))
        }) by {
            let a = array_enc(obs);
            let f = seq![bool_byte(te), bool_byte(tr)];
            let p1 = pos + a.len();
            lemma_prefix_split(b@, pos as int, a + u32_le(rw) + f, dict_enc(info));
            lemma_prefix_split(b@, pos as int, a + u32_le(rw), f);
            lemma_prefix_split(b@, pos as int, a, u32_le(rw));
            lemma_prefix_split(b@, p1 + 4, seq![bool_byte(te)], seq![bool_byte(tr)]);
            assert(seq![bool_byte(te)] + seq![bool_byte(tr)] =~= f);
        }
    }
    let (obs, p1) = match get_array(b, pos) {
        Some(x) => x,
        None => return None,
    };
    let reward = match get_u32(b, p1) {
        Some(x) => x,
        None => return None,
    };
    let terminated = match get_bool(b, p1 + 4) {
        Some(x) => x,
        None => return None,
    };
    let truncated = match get_bool(b, p1 + 5) {
        Some(x) => x,
        None => return None,
    };
    let (info, end) = match get_dict(b, p1 + 6) {
        Some(x) => x,
        None => return None,
    };
    proof {
        assert forall|obs2: Seq<u32>, rw: u32, te: bool, tr: bool, info2: Seq<(Seq<u8>, Seq<u8>)>|
            array_fits(obs2) && dict_fits(info2) && #[trigger] prefix_at(
                b@,
                pos as int,
                step_return_body(obs2, rw, te, tr, info2),
            ) implies rw == reward by {
            lemma_u32_unique(b@, p1 as int, rw, reward);
        }
        let a = array_enc(obs@);
        let f = seq![bool_byte(terminated), bool_byte(truncated)];
        lemma_prefix_split(b@, p1 + 4, seq![bool_byte(terminated)], seq![bool_byte(truncated)]);
        assert(seq![bool_byte(terminated)] + seq![bool_byte(truncated)] =~= f);
        lemma_prefix_split(b@, pos as int, a, u32_le(reward));
        lemma_prefix_split(b@, pos as int, a + u32_le(reward), f);
        lemma_prefix_split(b@, pos as int, a + u32_le(reward) + f, dict_enc(entries_view(info@)));
    }
    Some((Envelope::StepReturn { obs, reward, terminated, truncated, info }, end))
}

fn get_reset_return(b: &Vec<u8>, pos: usize) -> (r: Option<(Envelope, usize)>)
    ensures
        r matches Some((e, end)) ==> e@ matches Message::ResetReturn(obs, info) && encodable(e@)
            && end == pos + body_enc(e@).len() && prefix_at(b@, pos as int, body_enc(e@)),
        forall|obs: Seq<u32>, info: Seq<(Seq<u8>, Seq<u8>)>|
            array_fits(obs) && dict_fits(info) && #[trigger] prefix_at(
                b@,
                pos as int,
                reset_return_body(obs, info),
            ) ==> (r matches Some((e, end)) && e@ == Message::ResetReturn(obs, info) && end == pos
                + reset_return_body(obs, info).len()),
{
    proof {
        assert forall|obs: Seq<u32>, info: Seq<(Seq<u8>, Seq<u8>)>|
            array_fits(obs) && dict_fits(info) && #[trigger] prefix_at(
                b@,
                pos as int,
                reset_return_body(obs, info),
            ) implies prefix_at(b@, pos as int, array_enc(obs)) && prefix_at(
            b@,
            pos + array_enc(obs).len(),
            dict_enc(info),
        ) by {
            lemma_prefix_split(b@, pos as int, array_enc(obs), dict_enc(info));
        }
    }
    let (obs, p1) = match get_array(b, pos) {
        Some(x) => x,
        None => return None,
    };
    let (info, end) = match get_dict(b, p1) {
        Some(x) => x,
        None => return None,
    };
    proof {
        lemma_prefix_split(b@, pos as int, array_enc(obs@), dict_enc(entries_view(info@)));
    }
    Some((Envelope::ResetReturn { obs, info }, end))
}

proof fn lemma_enc_layout(b: Seq<u8>, m: Message)
    requires
        enc(m) == b,
    ensures
        b.len() == 1 + body_enc(m).len(),
        b[0] == tag_of(m),
        prefix_at(b, 1, body_enc(m)),
{
    assert(b.subrange(1, b.len() as int) =~= body_enc(m));
}

/// Reads a message from bytes: the tag, then the fields of its kind, with nothing left over.
pub fn decode(b: &Vec<u8>) -> (r: Result<Envelope, FerryError>)
    ensures
        r matches Ok(e) ==> encodable(e@) && enc(e@) == b@,
        forall|m: Message| encodable(m) && #[trigger] enc(m) == b@ ==> (r matches Ok(e) && e@ == m),
        r matches Err(x) ==> x == FerryError::Decoding,
{
    let blen = b.len();
    proof {
        assert forall|m: Message| encodable(m) && #[trigger] enc(m) == b@ implies b@.len() == 1
            + body_enc(m).len() && b@[0] == tag_of(m) && prefix_at(b@, 1, body_enc(m)) by {
            lemma_enc_layout(b@, m);
        }
    }
    if blen == 0 {
        return Err(FerryError::Decoding);
    }
    let tag = b[0];
    let e = if tag == 0 {
        if blen != 1 {
            return Err(FerryError::Decoding);
        }
        Envelope::Request
    } else if tag == 1 {
        match get_words(b, 1) {
            Some((values, end)) => {
                if end != blen {
                    return Err(FerryError::Decoding);
                }
                Envelope::Action { values }
            },
            None => {
                return Err(FerryError::Decoding);
            },
        }
    } else if tag == 2 {
        match get_reset_args(b, 1) {
            Some((seed, options, end)) => {
                if end != blen {
                    return Err(FerryError::Decoding);
                }
                Envelope::ResetArgs { seed, options }
            },
            None => {
                return Err(FerryError::Decoding);
            },
        }
    } else if tag == 3 {
        if blen != 2 {
            return Err(FerryError::Decoding);
        }
        match get_bool(b, 1) {
            Some(flag) => Envelope::Close { flag },
            None => {
                return Err(FerryError::Decoding);
            },
        }
    } else if tag == 4 {
        match get_step_return(b, 1) {
            Some((e, end)) => {
                if end != blen {
                    return Err(FerryError::Decoding);
                }
                e
            },
            None => {
                return Err(FerryError::Decoding);
            },
        }
    } else if tag == 5 {
        match get_reset_return(b, 1) {
            Some((e, end)) => {
                if end != blen {
                    return Err(FerryError::Decoding);
                }
                e
            },
            None => {
                return Err(FerryError::Decoding);
            },
        }
    } else {
        return Err(FerryError::Decoding);
    };
    proof {
        assert(b@.subrange(1, b@.len() as int) == body_enc(e@));
        assert(b@ =~= enc(e@));
        assert forall|m: Message| encodable(m) && #[trigger] enc(m) == b@ implies e@ == m by {
            lemma_enc_injective(e@, m);
        }
    }
    Ok(e)
}

/// Two encodable messages with one encoding are the same message.
pub proof fn lemma_enc_injective(m1: Message, m2: Message)
    requires
        encodable(m1),
        encodable(m2),
        enc(m1) == enc(m2),
    ensures
        m1 == m2,
{
    let b = enc(m1);
    lemma_enc_layout(b, m1);
    lemma_enc_layout(b, m2);
    match (m1, m2) {
        (Message::Action(x), Message::Action(y)) => {
            lemma_prefix_split(b, 1, u32_le(x.len() as u32), words_body(x));
            lemma_prefix_split(b, 1, u32_le(y.len() as u32), words_body(y));
            lemma_u32_unique(b, 1, x.len() as u32, y.len() as u32);
            lemma_words_body_len(x);
            lemma_words_body_len(y);
            assert(b.subrange(5, 5 + 4 * x.len() as int) == words_body(x));
            lemma_words_body_injective(x, y);
        },
        (Message::ResetArgs(s1, o1), Message::ResetArgs(s2, o2)) => {
            lemma_prefix_split(b, 1, u32_le(seed_word(s1)), dict_enc(o1));
            lemma_prefix_split(b, 1, u32_le(seed_word(s2)), dict_enc(o2));
            lemma_u32_unique(b, 1, seed_word(s1), seed_word(s2));
            lemma_seed_word(s1, seed_word(s2));
            lemma_seed_word(s2, seed_word(s2));
            lemma_dict_unique(b, 5, o1, o2);
        },
        (Message::Close(f1), Message::Close(f2)) => {
            assert(b[1] == bool_byte(f1) && b[1] == bool_byte(f2));
        },
        (Message::StepReturn(a1, r1, t1, u1, i1), Message::StepReturn(a2, r2, t2, u2, i2)) => {
            lemma_step_return_split(b, a1, r1, t1, u1, i1);
            lemma_step_return_split(b, a2, r2, t2, u2, i2);
            lemma_array_unique(b, 1, a1, a2);
            let p: int = 1 + array_enc(a1).len() as int;
            lemma_u32_unique(b, p, r1, r2);
            assert(b[p + 4] == bool_byte(t1) && b[p + 4] == bool_byte(t2));
            assert(b[p + 5] == bool_byte(u1) && b[p + 5] == bool_byte(u2));
            lemma_dict_unique(b, p + 6, i1, i2);
        },
        (Message::ResetReturn(a1, i1), Message::ResetReturn(a2, i2)) => {
            lemma_prefix_split(b, 1, array_enc(a1), dict_enc(i1));
            lemma_prefix_split(b, 1, array_enc(a2), dict_enc(i2));
            lemma_array_unique(b, 1, a1, a2);
            lemma_dict_unique(b, 1 + array_enc(a1).len() as int, i1, i2);
        },
        _ => {},
    }
}

proof fn lemma_step_return_split(
    b: Seq<u8>,
    obs: Seq<u32>,
    rw: u32,
    te: bool,
    tr: bool,
    info: Seq<(Seq<u8>, Seq<u8>)>,
)
    requires
        prefix_at(b, 1, step_return_body(obs, rw, te, tr, info)),
    ensures
        prefix_at(b, 1, array_enc(obs)),
        prefix_at(b, 1 + array_enc(obs).len() as int, u32_le(rw)),
        b[1 + array_enc(obs).len() as int + 4] == bool_byte(te),
        b[1 + array_enc(obs).len() as int + 5] == bool_byte(tr),
        prefix_at(b, 1 + array_enc(obs).len() as int + 6, dict_enc(info)),
{
    let a = array_enc(obs);
    let f = seq![bool_byte(te), bool_byte(tr)];
    let p: int = 1 + a.len() as int;
    lemma_prefix_split(b, 1, a + u32_le(rw) + f, dict_enc(info));
    lemma_prefix_split(b, 1, a + u32_le(rw), f);
    lemma_prefix_split(b, 1, a, u32_le(rw));
    assert(b.subrange(p + 4, p + 6)[0] == b[p + 4]);
    assert(b.subrange(p + 4, p + 6)[1] == b[p + 5]);
}

/// Decoding an encoded message gives the message back.
pub proof fn lemma_round_trip(m: Message)
    requires
        encodable(m),
    ensures
        decode_spec(enc(m)) == Some(m),
{
    let b = enc(m);
    assert(exists|x: Message| encodable(x) && enc(x) == b);
    let x = choose|x: Message| encodable(x) && enc(x) == b;
    lemma_enc_injective(x, m);
}

} // verus!
