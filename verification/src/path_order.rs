use crate::order::{
    bytes_less, bytes_lt, lemma_bytes_lt_irreflexive, lemma_bytes_lt_total,
    lemma_bytes_lt_transitive,
};
use vstd::prelude::*;
use vstd::utf8::*;

verus! {

/// The byte that separates the components of a path.
pub const SEPARATOR: u8 = 47;

/// The byte of a dot.
pub const DOT: u8 = 46;

/// The mark that stands before each component in the key of a path.
pub const MARK: u8 = 0;

/// The rank of the root.
pub const RANK_ROOT: u8 = 1;

/// The rank of a `.` at the beginning of a path.
pub const RANK_HERE: u8 = 2;

/// The rank of `..`.
pub const RANK_UP: u8 = 3;

/// The rank of a name.
pub const RANK_NAME: u8 = 4;

/// The pieces of a path between its separators: one more than it has
/// separators, empty ones among them where separators meet or stand at an
/// end.
pub open spec fn pieces(path: Seq<u8>) -> Seq<Seq<u8>>
    decreases path.len(),
{
    if path.len() == 0 {
        seq![Seq::<u8>::empty()]
    } else if path.last() == SEPARATOR {
        pieces(path.drop_last()).push(Seq::<u8>::empty())
    } else {
        let before = pieces(path.drop_last());
        before.drop_last().push(before.last().push(path.last()))
    }
}

/// A path has a piece at least.
pub proof fn lemma_pieces_len(path: Seq<u8>)
    ensures
        pieces(path).len() >= 1,
    decreases path.len(),
{
    if path.len() > 0 {
        lemma_pieces_len(path.drop_last());
    }
}

/// A byte of a name as it stands in a key: the bytes below the separator
/// are raised by one, so that none is the mark and the order of the bytes
/// stays as it is. The separator itself stands in no name.
pub open spec fn raised(b: u8) -> u8 {
    if b < SEPARATOR {
        (b + 1) as u8
    } else {
        b
    }
}

/// The bytes of a name as they stand in a key.
pub open spec fn raised_name(name: Seq<u8>) -> Seq<u8> {
    Seq::new(name.len(), |i: int| raised(name[i]))
}

/// What a piece adds to the key of a path. An empty piece is no component,
/// and `.` is one only as the first piece of the path. Every other piece is
/// a component: the mark, its rank, and for a name its bytes.
pub open spec fn piece_key(piece: Seq<u8>, first: bool) -> Seq<u8> {
    if piece.len() == 0 {
        Seq::empty()
    } else if piece.len() == 1 && piece[0] == DOT {
        if first {
            seq![MARK, RANK_HERE]
        } else {
            Seq::empty()
        }
    } else if piece.len() == 2 && piece[0] == DOT && piece[1] == DOT {
        seq![MARK, RANK_UP]
    } else {
        seq![MARK, RANK_NAME] + raised_name(piece)
    }
}

/// What the pieces of a path add to its key, one after the other.
pub open spec fn pieces_key(parts: Seq<Seq<u8>>) -> Seq<u8>
    decreases parts.len(),
{
    if parts.len() == 0 {
        Seq::empty()
    } else {
        pieces_key(parts.drop_last()) + piece_key(parts.last(), parts.len() == 1)
    }
}

/// What the beginning of a path adds to its key: the root, where the path
/// begins with a separator.
pub open spec fn root_key(path: Seq<u8>) -> Seq<u8> {
    if path.len() > 0 && path[0] == SEPARATOR {
        seq![MARK, RANK_ROOT]
    } else {
        Seq::empty()
    }
}

/// The key by which paths are ordered: the components of the path one after
/// the other, each as the mark, the rank of its kind and, for a name, the
/// bytes of the name.
///
/// The components are those of a path of Unix: the root where the path
/// begins with a separator, `.` where the path begins with it, `..`, and
/// names; separators that meet, a separator at the end and every other `.`
/// make no component. Keys stand in the order of bytes exactly as paths
/// stand in the order of their components, taken one by one: a component
/// that ends meets the end of the key or the mark of the next, which is
/// below every byte of a name, so a name comes before the names that it
/// begins; ranks meet ranks, so the root comes before `.`, that before
/// `..`, and that before every name.
pub open spec fn order_key(path: Seq<u8>) -> Seq<u8> {
    root_key(path) + pieces_key(pieces(path))
}

/// The order of paths: by their components, and paths with the same
/// components by their bytes.
pub open spec fn path_before(a: Seq<char>, b: Seq<char>) -> bool {
    let ka = order_key(encode_utf8(a));
    let kb = order_key(encode_utf8(b));
    bytes_lt(ka, kb) || (ka == kb && bytes_lt(encode_utf8(a), encode_utf8(b)))
}

/// No path comes before itself.
pub proof fn lemma_path_before_irreflexive(a: Seq<char>)
    ensures
        !path_before(a, a),
{
    lemma_bytes_lt_irreflexive(order_key(encode_utf8(a)));
    lemma_bytes_lt_irreflexive(encode_utf8(a));
}

/// The order of paths is transitive.
pub proof fn lemma_path_before_transitive(a: Seq<char>, b: Seq<char>, c: Seq<char>)
    requires
        path_before(a, b),
        path_before(b, c),
    ensures
        path_before(a, c),
{
    let ka = order_key(encode_utf8(a));
    let kb = order_key(encode_utf8(b));
    let kc = order_key(encode_utf8(c));
    if bytes_lt(ka, kb) && bytes_lt(kb, kc) {
        lemma_bytes_lt_transitive(ka, kb, kc);
    } else if ka == kb && kb == kc {
        lemma_bytes_lt_transitive(encode_utf8(a), encode_utf8(b), encode_utf8(c));
    }
}

/// Of two different paths one comes before the other, and not both.
pub proof fn lemma_path_before_total(a: Seq<char>, b: Seq<char>)
    ensures
        path_before(a, b) || path_before(b, a) || a == b,
        !(path_before(a, b) && path_before(b, a)),
{
    let ka = order_key(encode_utf8(a));
    let kb = order_key(encode_utf8(b));
    lemma_bytes_lt_total(ka, kb);
    lemma_bytes_lt_total(encode_utf8(a), encode_utf8(b));
    lemma_bytes_lt_irreflexive(ka);
    if encode_utf8(a) == encode_utf8(b) {
        encode_utf8_decode_utf8(a);
        encode_utf8_decode_utf8(b);
    }
}

/// Appends to `key` what a piece adds to the key of a path.
fn put_piece(key: &mut Vec<u8>, piece: &Vec<u8>, first: bool)
    ensures
        final(key)@ == old(key)@ + piece_key(piece@, first),
{
    let ghost start = key@;
    if piece.len() == 0 {
        assert(key@ =~= start + piece_key(piece@, first));
    } else if piece.len() == 1 && piece[0] == DOT {
        if first {
            key.push(MARK);
            key.push(RANK_HERE);
        }
        assert(key@ =~= start + piece_key(piece@, first));
    } else if piece.len() == 2 && piece[0] == DOT && piece[1] == DOT {
        key.push(MARK);
        key.push(RANK_UP);
        assert(key@ =~= start + piece_key(piece@, first));
    } else {
        key.push(MARK);
        key.push(RANK_NAME);
        let mut i: usize = 0;
        while i < piece.len()
            invariant
                i <= piece@.len(),
                key@ == start + seq![MARK, RANK_NAME] + raised_name(piece@).take(i as int),
            decreases piece@.len() - i,
        {
            let b = piece[i];
            let r: u8 = if b < SEPARATOR {
                b + 1
            } else {
                b
            };
            key.push(r);
            proof {
                assert(raised_name(piece@).take(i + 1) =~= raised_name(piece@).take(i as int).push(
                    r,
                ));
            }
            i += 1;
        }
        proof {
            assert(raised_name(piece@).take(piece@.len() as int) =~= raised_name(piece@));
            assert(key@ =~= start + piece_key(piece@, first));
        }
    }
}

/// The key by which a path is ordered.
pub fn key_of_path(path: &[u8]) -> (key: Vec<u8>)
    ensures
        key@ == order_key(path@),
{
    let mut key: Vec<u8> = Vec::new();
    if path.len() > 0 && path[0] == SEPARATOR {
        key.push(MARK);
        key.push(RANK_ROOT);
    }
    let mut piece: Vec<u8> = Vec::new();
    let mut first = true;
    let mut i: usize = 0;
    proof {
        assert(path@.take(0) =~= Seq::<u8>::empty());
        assert(pieces(path@.take(0)).drop_last() =~= Seq::<Seq<u8>>::empty());
        assert(key@ =~= root_key(path@) + pieces_key(pieces(path@.take(0)).drop_last()));
    }
    while i < path.len()
        invariant
            i <= path@.len(),
            pieces(path@.take(i as int)).len() >= 1,
            piece@ == pieces(path@.take(i as int)).last(),
            first == (pieces(path@.take(i as int)).len() == 1),
            key@ == root_key(path@) + pieces_key(pieces(path@.take(i as int)).drop_last()),
        decreases path@.len() - i,
    {
        let ghost before = pieces(path@.take(i as int));
        let ghost start = key@;
        proof {
            assert(path@.take(i + 1).drop_last() =~= path@.take(i as int));
            assert(path@.take(i + 1).last() == path@[i as int]);
            lemma_pieces_len(path@.take(i + 1));
        }
        if path[i] == SEPARATOR {
            put_piece(&mut key, &piece, first);
            piece = Vec::new();
            first = false;
            proof {
                let after = pieces(path@.take(i + 1));
                assert(after == before.push(Seq::<u8>::empty()));
                assert(after.drop_last() =~= before);
                assert(key@ =~= root_key(path@) + pieces_key(before));
            }
        } else {
            piece.push(path[i]);
            proof {
                let after = pieces(path@.take(i + 1));
                assert(after == before.drop_last().push(before.last().push(path@[i as int])));
                assert(after.drop_last() =~= before.drop_last());
            }
        }
        i += 1;
    }
    let ghost all = pieces(path@);
    proof {
        assert(path@.take(path@.len() as int) =~= path@);
    }
    put_piece(&mut key, &piece, first);
    proof {
        assert(key@ =~= root_key(path@) + pieces_key(all));
    }
    key
}

/// Tells whether `a` comes before `b` in the order of paths.
pub fn path_less(a: &str, b: &str) -> (r: bool)
    ensures
        r == path_before(a@, b@),
{
    let ka = key_of_path(a.as_bytes());
    let kb = key_of_path(b.as_bytes());
    proof {
        lemma_bytes_lt_total(ka@, kb@);
    }
    if bytes_less(ka.as_slice(), kb.as_slice()) {
        true
    } else if bytes_less(kb.as_slice(), ka.as_slice()) {
        false
    } else {
        bytes_less(a.as_bytes(), b.as_bytes())
    }
}

} // verus!
