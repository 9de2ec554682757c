//! The wire form of a tree: a tag of four bytes (0 for a node, 1 for a
//! leaf), a count of eight bytes, both big-endian, then the children one
//! after the other, or the digest's bytes.

use crate::merkle::{Shape, TreeBin};
use vstd::prelude::*;

verus! {

/// The eight bytes of a count, most significant first.
pub open spec fn be_u64(n: u64) -> Seq<u8> {
    seq![
        (n >> 56) as u8,
        (n >> 48) as u8,
        (n >> 40) as u8,
        (n >> 32) as u8,
        (n >> 24) as u8,
        (n >> 16) as u8,
        (n >> 8) as u8,
        n as u8,
    ]
}

/// The count that eight bytes spell, most significant first.
pub open spec fn from_be_u64(b: Seq<u8>) -> u64 {
    (b[0] as u64) << 56 | (b[1] as u64) << 48 | (b[2] as u64) << 40 | (b[3] as u64) << 32 | (
    b[4] as u64) << 24 | (b[5] as u64) << 16 | (b[6] as u64) << 8 | (b[7] as u64)
}

/// Reading back the bytes of a count gives the count.
pub proof fn lemma_be_u64_read_back(n: u64)
    ensures
        be_u64(n).len() == 8,
        from_be_u64(be_u64(n)) == n,
{
    assert(((n >> 56) as u8 as u64) << 56 | ((n >> 48) as u8 as u64) << 48 | ((n >> 40) as u8
        as u64) << 40 | ((n >> 32) as u8 as u64) << 32 | ((n >> 24) as u8 as u64) << 24 | ((n
        >> 16) as u8 as u64) << 16 | ((n >> 8) as u8 as u64) << 8 | (n as u8 as u64) == n)
        by (bit_vector);
}

/// Writing the count that eight bytes spell gives the eight bytes.
pub proof fn lemma_be_u64_write_back(b: Seq<u8>)
    requires
        b.len() == 8,
    ensures
        be_u64(from_be_u64(b)) == b,
{
    let (b0, b1, b2, b3, b4, b5, b6, b7) = (b[0], b[1], b[2], b[3], b[4], b[5], b[6], b[7]);
    let n = from_be_u64(b);
    assert(n == (b0 as u64) << 56 | (b1 as u64) << 48 | (b2 as u64) << 40 | (b3 as u64) << 32 | (
    b4 as u64) << 24 | (b5 as u64) << 16 | (b6 as u64) << 8 | (b7 as u64));
    assert(n == (b0 as u64) << 56 | (b1 as u64) << 48 | (b2 as u64) << 40 | (b3 as u64) << 32 | (
    b4 as u64) << 24 | (b5 as u64) << 16 | (b6 as u64) << 8 | (b7 as u64) ==> (n >> 56) as u8
        == b0 && (n >> 48) as u8 == b1 && (n >> 40) as u8 == b2 && (n >> 32) as u8 == b3 && (n
        >> 24) as u8 == b4 && (n >> 16) as u8 == b5 && (n >> 8) as u8 == b6 && n as u8 == b7)
        by (bit_vector);
    assert(be_u64(n) =~= b);
}

/// Whether every count in the tree fits the eight bytes of the wire form.
pub open spec fn fits(t: Shape) -> bool
    decreases t,
{
    match t {
        Shape::Node(children) => children.len() <= u64::MAX && forall|i: int|
            0 <= i < children.len() ==> fits(#[trigger] children[i]),
        Shape::Leaf(digest) => digest.len() <= u64::MAX,
    }
}

/// A proper tree fits the wire form.
pub proof fn lemma_proper_fits<H: crate::utils::Hash>(t: Shape)
    requires
        crate::merkle::proper::<H>(t),
    ensures
        fits(t),
    decreases t,
{
    H::width_in_range();
    match t {
        Shape::Node(children) => {
            assert forall|i: int| 0 <= i < children.len() implies fits(#[trigger] children[i]) by {
                lemma_proper_fits::<H>(children[i]);
            }
        },
        Shape::Leaf(_) => {},
    }
}

/// The tag and the count that open a node (`tag` 0) or a leaf (`tag` 1).
pub open spec fn opening(tag: u8, count: u64) -> Seq<u8> {
    seq![0u8, 0u8, 0u8, tag] + be_u64(count)
}

/// The bytes of a tree.
pub open spec fn wire(t: Shape) -> Seq<u8>
    decreases t,
{
    match t {
        Shape::Node(children) => opening(0, children.len() as u64) + row_wire(children),
        Shape::Leaf(digest) => opening(1, digest.len() as u64) + digest,
    }
}

/// The bytes of a row of trees, one after the other.
pub open spec fn row_wire(row: Seq<Shape>) -> Seq<u8>
    decreases row,
{
    if row.len() == 0 {
        Seq::empty()
    } else {
        wire(row[0]) + row_wire(row.subrange(1, row.len() as int))
    }
}

/// Whether `b` begins with the bytes of the tree `t`.
pub open spec fn begins_with(b: Seq<u8>, t: Shape) -> bool {
    exists|tail: Seq<u8>| b == wire(t) + tail
}

/// Reads one tree from the front of `b`: the tree and the bytes after it,
/// or `None` where `b` does not begin with the bytes of a tree.
pub open spec fn parse(b: Seq<u8>) -> Option<(Shape, Seq<u8>)>
    decreases b.len(), 0nat,
{
    if b.len() < 12 || b[0] != 0 || b[1] != 0 || b[2] != 0 || b[3] > 1 {
        None
    } else {
        let count = from_be_u64(b.subrange(4, 12));
        let body = b.skip(12);
        if b[3] == 1 {
            if count <= body.len() {
                Some((Shape::Leaf(body.take(count as int)), body.skip(count as int)))
            } else {
                None
            }
        } else {
            match parse_row(body, count as nat) {
                Some((row, rest)) => Some((Shape::Node(row), rest)),
                None => None,
            }
        }
    }
}

/// Reads `count` trees from the front of `b`.
pub open spec fn parse_row(b: Seq<u8>, count: nat) -> Option<(Seq<Shape>, Seq<u8>)>
    decreases b.len(), count + 1,
{
    if count == 0 {
        Some((Seq::empty(), b))
    } else {
        match parse(b) {
            Some((first, rest)) => if rest.len() < b.len() {
                after(first, parse_row(rest, (count - 1) as nat))
            } else {
                None
            },
            None => None,
        }
    }
}

/// A row that was read, with `first` put before it.
pub open spec fn after(first: Shape, read: Option<(Seq<Shape>, Seq<u8>)>) -> Option<
    (Seq<Shape>, Seq<u8>),
> {
    match read {
        Some((row, rest)) => Some((seq![first] + row, rest)),
        None => None,
    }
}

/// A row that was read, with the trees of `done` put before it.
pub open spec fn after_all(done: Seq<Shape>, read: Option<(Seq<Shape>, Seq<u8>)>) -> Option<
    (Seq<Shape>, Seq<u8>),
> {
    match read {
        Some((row, rest)) => Some((done + row, rest)),
        None => None,
    }
}

/// What follows an opening can be read off it.
proof fn lemma_opening(tag: u8, count: u64, tail: Seq<u8>)
    ensures
        ({
            let b = opening(tag, count) + tail;
            &&& b.len() == 12 + tail.len()
            &&& b[0] == 0 && b[1] == 0 && b[2] == 0 && b[3] == tag
            &&& from_be_u64(b.subrange(4, 12)) == count
            &&& b.skip(12) == tail
        }),
{
    let b = opening(tag, count) + tail;
    lemma_be_u64_read_back(count);
    assert(b.subrange(4, 12) =~= be_u64(count));
    assert(b.skip(12) =~= tail);
}

/// Reading the bytes of a tree gives the tree back, and leaves what
/// followed it.
pub proof fn lemma_parse_wire(t: Shape, tail: Seq<u8>)
    requires
        fits(t),
    ensures
        parse(wire(t) + tail) == Some((t, tail)),
    decreases t, 0nat,
{
    match t {
        Shape::Node(children) => {
            let count = children.len() as u64;
            lemma_opening(0, count, row_wire(children) + tail);
            assert(wire(t) + tail =~= opening(0, count) + (row_wire(children) + tail));
            lemma_parse_row_wire(children, tail);
        },
        Shape::Leaf(digest) => {
            let count = digest.len() as u64;
            lemma_opening(1, count, digest + tail);
            assert(wire(t) + tail =~= opening(1, count) + (digest + tail));
            assert((digest + tail).take(count as int) =~= digest);
            assert((digest + tail).skip(count as int) =~= tail);
        },
    }
}

/// A tree that is written and read back is the same tree, and so has the
/// same root.
pub proof fn lemma_round_trip<H: crate::utils::Hash>(t: Shape)
    requires
        fits(t),
    ensures
        parse(wire(t)) == Some((t, Seq::<u8>::empty())),
        crate::merkle::root::<H>(parse(wire(t)).unwrap().0) == crate::merkle::root::<H>(t),
{
    lemma_parse_wire(t, Seq::<u8>::empty());
    assert(wire(t) + Seq::<u8>::empty() =~= wire(t));
}

/// Reading the bytes of a row gives the row back.
pub proof fn lemma_parse_row_wire(row: Seq<Shape>, tail: Seq<u8>)
    requires
        forall|i: int| 0 <= i < row.len() ==> fits(#[trigger] row[i]),
    ensures
        parse_row(row_wire(row) + tail, row.len()) == Some((row, tail)),
    decreases row, 1nat,
{
    if row.len() == 0 {
        assert(row_wire(row) + tail =~= tail);
        assert(row =~= Seq::<Shape>::empty());
    } else {
        let rest = row.subrange(1, row.len() as int);
        let after_first = row_wire(rest) + tail;
        assert(row_wire(row) + tail =~= wire(row[0]) + after_first);
        lemma_parse_wire(row[0], after_first);
        lemma_wire_opens(row[0]);
        assert forall|i: int| 0 <= i < rest.len() implies fits(#[trigger] rest[i]) by {
            assert(rest[i] == row[i + 1]);
        }
        lemma_parse_row_wire(rest, tail);
        assert(seq![row[0]] + rest =~= row);
    }
}

/// What is read from bytes began them: the bytes are those of the tree that
/// was read, and then what was left.
pub proof fn lemma_parse_sound(b: Seq<u8>)
    requires
        parse(b) is Some,
    ensures
        fits(parse(b).unwrap().0),
        b == wire(parse(b).unwrap().0) + parse(b).unwrap().1,
    decreases b.len(), 0nat,
{
    let (t, rest) = parse(b).unwrap();
    let count = from_be_u64(b.subrange(4, 12));
    let body = b.skip(12);
    lemma_be_u64_write_back(b.subrange(4, 12));
    assert(b.take(12) =~= opening(b[3], count));
    assert(b =~= b.take(12) + body);
    if b[3] == 1 {
        assert(body =~= body.take(count as int) + body.skip(count as int));
        assert(b =~= (opening(1, count) + body.take(count as int)) + rest);
    } else {
        lemma_parse_row_sound(body, count as nat);
        let row = parse_row(body, count as nat).unwrap().0;
        assert(b =~= (opening(0, count) + row_wire(row)) + rest);
    }
}

/// What is read as a row from bytes began them.
pub proof fn lemma_parse_row_sound(b: Seq<u8>, count: nat)
    requires
        parse_row(b, count) is Some,
    ensures
        parse_row(b, count).unwrap().0.len() == count,
        forall|i: int|
            0 <= i < count ==> fits(#[trigger] parse_row(b, count).unwrap().0[i]),
        b == row_wire(parse_row(b, count).unwrap().0) + parse_row(b, count).unwrap().1,
    decreases b.len(), count + 1,
{
    let (row, rest) = parse_row(b, count).unwrap();
    if count == 0 {
        assert(b =~= row_wire(row) + rest);
    } else {
        let (first, left) = parse(b).unwrap();
        lemma_parse_sound(b);
        lemma_parse_row_sound(left, (count - 1) as nat);
        let others = parse_row(left, (count - 1) as nat).unwrap().0;
        assert(row =~= seq![first] + others);
        assert(row.subrange(1, row.len() as int) =~= others);
        assert(row[0] == first);
        assert(b =~= (wire(first) + row_wire(others)) + rest);
        assert forall|i: int| 0 <= i < count implies fits(#[trigger] row[i]) by {
            if i > 0 {
                assert(row[i] == others[i - 1]);
            }
        }
    }
}

/// The bytes of a tree are twelve or more.
pub proof fn lemma_wire_opens(t: Shape)
    ensures
        wire(t).len() >= 12,
{
    match t {
        Shape::Node(children) => {
            lemma_opening(0, children.len() as u64, row_wire(children));
        },
        Shape::Leaf(digest) => {
            lemma_opening(1, digest.len() as u64, digest);
        },
    }
}


/// Whatever a `TreeBin` holds fits the wire form.
pub proof fn lemma_bin_fits(bin: TreeBin)
    ensures
        fits(bin@),
    decreases bin,
{
    match bin {
        TreeBin::Node(nodes) => {
            assert(nodes@.len() == nodes.len());
            assert forall|i: int| 0 <= i < bin@->Node_0.len() implies fits(
                #[trigger] bin@->Node_0[i],
            ) by {
                assert(decreases_to!(bin => bin->Node_0));
                assert(decreases_to!(bin->Node_0 => bin->Node_0@));
                assert(decreases_to!(nodes@ => nodes@[i]));
                lemma_bin_fits(nodes@[i]);
            }
        },
        TreeBin::Leaf(digest) => {
            assert(digest@.len() == digest.len());
        },
    }
}

/// Appends the tag and the count that open a node or a leaf.
fn put_opening(out: &mut Vec<u8>, tag: u8, count: usize)
    ensures
        final(out)@ == old(out)@ + opening(tag, count as u64),
{
    let n: u64 = count as u64;
    out.push(0);
    out.push(0);
    out.push(0);
    out.push(tag);
    out.push((n >> 56) as u8);
    out.push((n >> 48) as u8);
    out.push((n >> 40) as u8);
    out.push((n >> 32) as u8);
    out.push((n >> 24) as u8);
    out.push((n >> 16) as u8);
    out.push((n >> 8) as u8);
    out.push(n as u8);
    proof {
        assert(out@ =~= old(out)@ + opening(tag, count as u64));
    }
}

/// Reads the count in the eight bytes from `at` on.
fn take_count(bytes: &[u8], at: usize) -> (count: u64)
    requires
        at + 8 <= bytes@.len(),
    ensures
        count == from_be_u64(bytes@.subrange(at as int, at + 8)),
{
    let ghost b = bytes@.subrange(at as int, at + 8);
    proof {
        assert(b[0] == bytes@[at + 0] && b[1] == bytes@[at + 1] && b[2] == bytes@[at + 2]
            && b[3] == bytes@[at + 3]);
        assert(b[4] == bytes@[at + 4] && b[5] == bytes@[at + 5] && b[6] == bytes@[at + 6]
            && b[7] == bytes@[at + 7]);
    }
    (bytes[at] as u64) << 56 | (bytes[at + 1] as u64) << 48 | (bytes[at + 2] as u64) << 40 | (
    bytes[at + 3] as u64) << 32 | (bytes[at + 4] as u64) << 24 | (bytes[at + 5] as u64) << 16
        | (bytes[at + 6] as u64) << 8 | (bytes[at + 7] as u64)
}

impl TreeBin {
    /// The bytes of the tree.
    pub fn encode(&self) -> (bytes: Vec<u8>)
        ensures
            bytes@ == wire(self@),
    {
        let mut bytes: Vec<u8> = Vec::new();
        self.encode_into(&mut bytes);
        proof {
            assert(bytes@ =~= wire(self@));
        }
        bytes
    }

    /// Appends the bytes of the tree to `out`.
    pub fn encode_into(&self, out: &mut Vec<u8>)
        ensures
            final(out)@ == old(out)@ + wire(self@),
        decreases self,
    {
        match self {
            TreeBin::Node(nodes) => {
                put_opening(out, 0, nodes.len());
                let ghost row = self@->Node_0;
                let mut i: usize = 0;
                proof {
                    assert(row.skip(row.len() as int) =~= Seq::<Shape>::empty());
                    assert(out@ + row_wire(row) =~= old(out)@ + wire(self@));
                    assert(row.skip(0) =~= row);
                }
                while i < nodes.len()
                    invariant
                        i <= nodes@.len(),
                        *self == TreeBin::Node(*nodes),
                        row == self@->Node_0,
                        out@ + row_wire(row.skip(i as int)) == old(out)@ + wire(self@),
                    decreases nodes@.len() - i,
                {
                    proof {
                        assert(decreases_to!(self => self->Node_0));
                        assert(decreases_to!(self->Node_0 => self->Node_0@));
                        assert(decreases_to!(nodes@ => nodes@[i as int]));
                        let here = row.skip(i as int);
                        assert(here[0] == nodes@[i as int]@);
                        assert(here.subrange(1, here.len() as int) =~= row.skip(i + 1));
                        assert((out@ + wire(here[0])) + row_wire(row.skip(i + 1)) =~= out@
                            + row_wire(here));
                    }
                    nodes[i].encode_into(out);
                    i += 1;
                }
                proof {
                    assert(row.skip(nodes@.len() as int) =~= Seq::<Shape>::empty());
                    assert(out@ + Seq::<u8>::empty() =~= out@);
                }
            },
            TreeBin::Leaf(digest) => {
                put_opening(out, 1, digest.len());
                out.extend_from_slice(digest.as_slice());
                proof {
                    assert(out@ =~= old(out)@ + wire(self@));
                }
            },
        }
    }

    /// Reads a tree from the front of `bytes`; what follows the tree is left
    /// unread. `None` where the bytes do not begin with a tree.
    pub fn decode(bytes: &[u8]) -> (tree: Option<TreeBin>)
        ensures
            match tree {
                Some(t) => parse(bytes@) is Some && parse(bytes@).unwrap().0 == t@
                    && begins_with(bytes@, t@),
                None => parse(bytes@) is None && forall|t: Shape|
                    fits(t) ==> !#[trigger] begins_with(bytes@, t),
            },
    {
        proof {
            assert(bytes@.skip(0) =~= bytes@);
            if parse(bytes@) is Some {
                lemma_parse_sound(bytes@);
            } else {
                assert forall|t: Shape| fits(t) implies !#[trigger] begins_with(bytes@, t) by {
                    if begins_with(bytes@, t) {
                        let tail = choose|tail: Seq<u8>| bytes@ == wire(t) + tail;
                        lemma_parse_wire(t, tail);
                    }
                }
            }
        }
        match TreeBin::decode_at(bytes, 0) {
            Some((tree, _)) => Some(tree),
            None => None,
        }
    }

    /// Reads the tree that begins at `at`, and says where it ends.
    pub fn decode_at(bytes: &[u8], at: usize) -> (found: Option<(TreeBin, usize)>)
        requires
            at <= bytes@.len(),
        ensures
            match found {
                Some((t, end)) => at + 12 <= end <= bytes@.len() && parse(bytes@.skip(at as int))
                    == Some((t@, bytes@.skip(end as int))),
                None => parse(bytes@.skip(at as int)) is None,
            },
        decreases bytes@.len() - at,
    {
        let ghost b = bytes@.skip(at as int);
        if bytes.len() - at < 12 {
            return None;
        }
        proof {
            assert(b[0] == bytes@[at + 0] && b[1] == bytes@[at + 1] && b[2] == bytes@[at + 2]
                && b[3] == bytes@[at + 3]);
            assert(b.subrange(4, 12) =~= bytes@.subrange(at + 4, at + 12));
            assert(b.skip(12) =~= bytes@.skip(at + 12));
        }
        if bytes[at] != 0 || bytes[at + 1] != 0 || bytes[at + 2] != 0 || bytes[at + 3] > 1 {
            return None;
        }
        let count: u64 = take_count(bytes, at + 4);
        let body: usize = at + 12;
        if bytes[at + 3] == 1 {
            if count > (bytes.len() - body) as u64 {
                return None;
            }
            let end: usize = body + count as usize;
            let mut digest: Vec<u8> = Vec::new();
            let mut i: usize = body;
            while i < end
                invariant
                    body <= i <= end <= bytes@.len(),
                    digest@ == bytes@.subrange(body as int, i as int),
                decreases end - i,
            {
                digest.push(bytes[i]);
                proof {
                    assert(digest@ =~= bytes@.subrange(body as int, i + 1));
                }
                i += 1;
            }
            proof {
                assert(b.skip(12).take(count as int) =~= digest@);
                assert(b.skip(12).skip(count as int) =~= bytes@.skip(end as int));
            }
            Some((TreeBin::Leaf(digest), end))
        } else {
            let mut row: Vec<TreeBin> = Vec::new();
            let mut done: u64 = 0;
            let mut next: usize = body;
            let ghost whole = parse_row(bytes@.skip(body as int), count as nat);
            proof {
                assert(after_all(Seq::<Shape>::empty(), whole) =~= whole);
            }
            while done < count
                invariant
                    done <= count,
                    body == at + 12,
                    body <= next <= bytes@.len(),
                    b == bytes@.skip(at as int),
                    whole is None ==> parse(b) is None,
                    whole is Some ==> parse(b) == Some(
                        (Shape::Node(whole.unwrap().0), whole.unwrap().1),
                    ),
                    whole == after_all(
                        crate::merkle::bins(row@),
                        parse_row(bytes@.skip(next as int), (count - done) as nat),
                    ),
                decreases count - done,
            {
                let ghost before = crate::merkle::bins(row@);
                match TreeBin::decode_at(bytes, next) {
                    Some((child, end)) => {
                        proof {
                            let read = parse_row(bytes@.skip(end as int), (count - done - 1) as nat);
                            assert(bytes@.skip(end as int).len() < bytes@.skip(next as int).len());
                            assert(parse_row(bytes@.skip(next as int), (count - done) as nat)
                                == after(child@, read));
                            assert(crate::merkle::bins(row@.push(child)) =~= before + seq![
                                child@,
                            ]);
                            if read is Some {
                                assert((before + seq![child@]) + read.unwrap().0 =~= before + (
                                seq![child@] + read.unwrap().0));
                            }
                        }
                        row.push(child);
                        next = end;
                    },
                    None => {
                        return None;
                    },
                }
                done += 1;
            }
            let tree = TreeBin::Node(row);
            proof {
                assert(crate::merkle::bins(row@) + Seq::<Shape>::empty() =~= crate::merkle::bins(
                    row@,
                ));
                assert(tree@->Node_0 =~= crate::merkle::bins(row@));
            }
            Some((tree, next))
        }
    }
}

} // verus!
