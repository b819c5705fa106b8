//! Splitting a secondary archive into the DDS images it holds, at each
//! occurrence of the marker that starts one.
use vstd::prelude::*;

verus! {

/// The bytes that start each DDS image: `"DDS |"`.
pub open spec fn dds_marker() -> Seq<u8> {
    seq![0x44u8, 0x44, 0x53, 0x20, 0x7C]
}

/// The marker starts at `i`.
pub open spec fn marker_at(d: Seq<u8>, i: int) -> bool {
    0 <= i && i + 5 <= d.len() && d.subrange(i, i + 5) == dds_marker()
}

/// The first marker at or after `from`.
pub open spec fn next_marker(d: Seq<u8>, from: int) -> Option<int>
    decreases d.len() - from,
{
    if from < 0 || from + 5 > d.len() {
        None
    } else if marker_at(d, from) {
        Some(from)
    } else {
        next_marker(d, from + 1)
    }
}

/// The pieces from the marker at `at` on: each runs from a marker up to the
/// next marker that starts after it ends, the last one to the end of `d`.
pub open spec fn pieces_from(d: Seq<u8>, at: int) -> Seq<Seq<u8>>
    decreases d.len() - at,
{
    if at < 0 || at > d.len() {
        Seq::empty()
    } else {
        match next_marker(d, at + 5) {
            None => seq![d.subrange(at, d.len() as int)],
            Some(n) => if n <= at || n > d.len() {
                Seq::empty()
            } else {
                seq![d.subrange(at, n)] + pieces_from(d, n)
            },
        }
    }
}

/// The DDS images of an archive: nothing when it holds no marker.
pub open spec fn dds_pieces(d: Seq<u8>) -> Seq<Seq<u8>> {
    match next_marker(d, 0) {
        None => Seq::empty(),
        Some(first) => pieces_from(d, first),
    }
}

/// One DDS image.
pub struct DDS(pub Vec<u8>);

/// The DDS images of an archive.
pub struct DDM(pub Vec<DDS>);

proof fn lemma_next_marker_bounds(d: Seq<u8>, from: int)
    ensures
        next_marker(d, from) matches Some(n) ==> from <= n && marker_at(d, n),
    decreases d.len() - from,
{
    if from >= 0 && from + 5 <= d.len() && !marker_at(d, from) {
        lemma_next_marker_bounds(d, from + 1);
    }
}

fn find_marker(d: &[u8], from: usize) -> (r: Option<usize>)
    ensures
        r matches Some(n) ==> next_marker(d@, from as int) == Some(n as int),
        r is None ==> next_marker(d@, from as int) is None,
{
    let ghost target = next_marker(d@, from as int);
    let mut i = from;
    while i < d.len() && d.len() - i >= 5
        invariant
            target == next_marker(d@, i as int),
            target == next_marker(d@, from as int),
            i >= from,
        decreases d@.len() - i,
    {
        if d[i] == 0x44 && d[i + 1] == 0x44 && d[i + 2] == 0x53 && d[i + 3] == 0x20 && d[i + 4]
            == 0x7C {
            assert(d@.subrange(i as int, i + 5) =~= dds_marker());
            return Some(i);
        }
        assert(!marker_at(d@, i as int)) by {
            if marker_at(d@, i as int) {
                assert(d@.subrange(i as int, i + 5)[0] == 0x44);
                assert(d@.subrange(i as int, i + 5)[1] == 0x44);
                assert(d@.subrange(i as int, i + 5)[2] == 0x53);
                assert(d@.subrange(i as int, i + 5)[3] == 0x20);
                assert(d@.subrange(i as int, i + 5)[4] == 0x7C);
            }
        }
        i = i + 1;
    }
    None
}

fn copy_range(d: &[u8], lo: usize, hi: usize) -> (r: Vec<u8>)
    requires
        lo <= hi <= d@.len(),
    ensures
        r@ == d@.subrange(lo as int, hi as int),
{
    let mut out: Vec<u8> = Vec::new();
    let mut i = lo;
    while i < hi
        invariant
            lo <= i <= hi <= d@.len(),
            out@ == d@.subrange(lo as int, i as int),
        decreases hi - i,
    {
        out.push(d[i]);
        i = i + 1;
        assert(out@ =~= d@.subrange(lo as int, i as int));
    }
    out
}

impl DDM {
    /// Splits an archive into its DDS images: each starts at an occurrence of the
    /// marker and runs up to the next occurrence after it, the last one to the
    /// end. An archive without the marker holds none.
    pub fn read(data: &[u8]) -> (r: Self)
        ensures
            r.0@.map_values(|p: DDS| p.0@) == dds_pieces(data@),
    {
        let mut pieces: Vec<DDS> = Vec::new();
        let first = match find_marker(data, 0) {
            Some(f) => f,
            None => {
                assert(pieces@.map_values(|p: DDS| p.0@) =~= Seq::<Seq<u8>>::empty());
                return DDM(pieces);
            },
        };
        let ghost target = dds_pieces(data@);
        let mut at = first;
        let len = data.len();
        proof {
            lemma_next_marker_bounds(data@, 0);
            assert(pieces@.map_values(|p: DDS| p.0@) + pieces_from(data@, at as int) =~= target);
        }
        loop
            invariant_except_break
                len == data@.len(),
                at + 5 <= data@.len(),
                target == dds_pieces(data@),
                target == pieces@.map_values(|p: DDS| p.0@) + pieces_from(data@, at as int),
            ensures
                target == pieces@.map_values(|p: DDS| p.0@),
            decreases data@.len() - at,
        {
            let ghost before = pieces@.map_values(|p: DDS| p.0@);
            match find_marker(data, at + 5) {
                Some(n) => {
                    proof {
                        lemma_next_marker_bounds(data@, at + 5);
                    }
                    pieces.push(DDS(copy_range(data, at, n)));
                    proof {
                        assert(pieces@.map_values(|p: DDS| p.0@) =~= before.push(
                            data@.subrange(at as int, n as int),
                        ));
                        assert(before + (seq![data@.subrange(at as int, n as int)] + pieces_from(
                            data@,
                            n as int,
                        )) =~= pieces@.map_values(|p: DDS| p.0@) + pieces_from(data@, n as int));
                    }
                    at = n;
                },
                None => {
                    pieces.push(DDS(copy_range(data, at, data.len())));
                    proof {
                        assert(pieces@.map_values(|p: DDS| p.0@) =~= before + seq![
                            data@.subrange(at as int, data@.len() as int),
                        ]);
                    }
                    break;
                },
            }
        }
        DDM(pieces)
    }
}

} // verus!
