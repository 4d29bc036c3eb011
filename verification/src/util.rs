//! Header-merging: writes one header list over another, as an HTTP header
//! map's iterator yields it. A `None` name marks one more value of the most
//! recently named header.
use vstd::prelude::*;

use crate::bytes::{bytes_eq, copy_bytes};

verus! {

/// The headers with every pair under the given name dropped.
pub open spec fn without_name(h: Seq<(Seq<u8>, Seq<u8>)>, name: Seq<u8>) -> Seq<(Seq<u8>, Seq<u8>)>
    decreases h.len(),
{
    if h.len() == 0 {
        Seq::empty()
    } else {
        let rest = without_name(h.drop_last(), name);
        if h.last().0 == name {
            rest
        } else {
            rest.push(h.last())
        }
    }
}

/// The destination headers after one source pair: a named pair replaces every
/// value under its name; an unnamed pair appends one more value under the
/// previous name.
pub open spec fn apply_header(
    dst: Seq<(Seq<u8>, Seq<u8>)>,
    prev: Seq<u8>,
    name: Option<Seq<u8>>,
    value: Seq<u8>,
) -> (Seq<(Seq<u8>, Seq<u8>)>, Seq<u8>) {
    match name {
        Some(n) => (without_name(dst, n).push((n, value)), n),
        None => (dst.push((prev, value)), prev),
    }
}

/// The destination headers after all source pairs, in order.
pub open spec fn replaced_headers(
    dst: Seq<(Seq<u8>, Seq<u8>)>,
    prev: Seq<u8>,
    src: Seq<(Option<Seq<u8>>, Seq<u8>)>,
) -> Seq<(Seq<u8>, Seq<u8>)>
    decreases src.len(),
{
    if src.len() == 0 {
        dst
    } else {
        let (d, p) = apply_header(dst, prev, src[0].0, src[0].1);
        replaced_headers(d, p, src.skip(1))
    }
}

/// The view of a header list.
pub open spec fn headers_view(h: Seq<(Vec<u8>, Vec<u8>)>) -> Seq<(Seq<u8>, Seq<u8>)> {
    h.map_values(|p: (Vec<u8>, Vec<u8>)| (p.0@, p.1@))
}

/// The view of a source header list, whose names may be elided.
pub open spec fn src_headers_view(h: Seq<(Option<Vec<u8>>, Vec<u8>)>) -> Seq<
    (Option<Seq<u8>>, Seq<u8>),
> {
    h.map_values(
        |p: (Option<Vec<u8>>, Vec<u8>)|
            (
                match p.0 {
                    Some(n) => Some(n@),
                    None => None,
                },
                p.1@,
            ),
    )
}

/// Drops every pair under `name` from `dst`, keeping the order of the rest.
fn remove_name(dst: &mut Vec<(Vec<u8>, Vec<u8>)>, name: &Vec<u8>)
    ensures
        headers_view(final(dst)@) == without_name(headers_view(old(dst)@), name@),
{
    let ghost orig = headers_view(dst@);
    let mut kept: Vec<(Vec<u8>, Vec<u8>)> = Vec::new();
    let ghost mut k: int = 0;
    proof {
        assert(orig.take(0) =~= Seq::<(Seq<u8>, Seq<u8>)>::empty());
        assert(headers_view(kept@) =~= without_name(orig.take(0), name@));
        assert(headers_view(dst@) =~= orig.skip(0));
    }
    while dst.len() > 0
        invariant
            0 <= k <= orig.len(),
            orig == headers_view(old(dst)@),
            headers_view(dst@) == orig.skip(k),
            headers_view(kept@) == without_name(orig.take(k), name@),
        decreases dst@.len(),
    {
        let ghost h0 = dst@;
        let e = dst.remove(0);
        let ghost oldkept = headers_view(kept@);
        proof {
            assert(dst@ =~= h0.skip(1));
            assert(headers_view(h0) == orig.skip(k));
            assert(headers_view(h0).len() == h0.len());
            assert(orig.skip(k).len() == orig.len() - k);
            assert(k < orig.len());
            assert(headers_view(dst@).len() == dst@.len());
            assert((e.0@, e.1@) == headers_view(h0)[0]);
            assert(headers_view(h0)[0] == orig.skip(k)[0]);
            assert(orig.skip(k)[0] == orig[k]);
            assert(headers_view(dst@) =~= orig.skip(k + 1)) by {
                assert forall|j: int|
                    0 <= j < dst@.len() implies #[trigger] headers_view(dst@)[j] == orig.skip(
                    k + 1,
                )[j] by {
                    assert(headers_view(dst@)[j] == (dst@[j].0@, dst@[j].1@));
                    assert(dst@[j] == h0[j + 1]);
                    assert(headers_view(h0)[j + 1] == (h0[j + 1].0@, h0[j + 1].1@));
                    assert(headers_view(h0)[j + 1] == orig.skip(k)[j + 1]);
                    assert(orig.skip(k)[j + 1] == orig[k + 1 + j]);
                    assert(orig.skip(k + 1)[j] == orig[k + 1 + j]);
                }
            }
            assert(orig.take(k + 1).drop_last() =~= orig.take(k));
            assert(orig.take(k + 1).last() == orig[k]);
            k = k + 1;
        }
        if !bytes_eq(&e.0, name) {
            kept.push(e);
            proof {
                assert(headers_view(kept@) =~= oldkept.push((e.0@, e.1@)));
            }
        }
    }
    proof {
        assert(orig.take(orig.len() as int) =~= orig);
    }
    let mut swap_in = kept;
    core::mem::swap(dst, &mut swap_in);
}

/// Writes the source headers over the destination: a named pair replaces
/// every value under its name, an unnamed pair appends one more value under
/// the most recently named header. The first source pair, if any, must carry
/// a name.
pub fn replace_headers(dst: &mut Vec<(Vec<u8>, Vec<u8>)>, src: Vec<(Option<Vec<u8>>, Vec<u8>)>)
    requires
        src@.len() > 0 ==> src@[0].0 is Some,
    ensures
        headers_view(final(dst)@) == replaced_headers(
            headers_view(old(dst)@),
            Seq::empty(),
            src_headers_view(src@),
        ),
{
    let ghost full = src_headers_view(src@);
    let mut prev: Vec<u8> = Vec::new();
    let mut i: usize = 0;
    proof {
        assert(full.skip(0) =~= full);
    }
    while i < src.len()
        invariant
            0 <= i <= src@.len(),
            full == src_headers_view(src@),
            replaced_headers(headers_view(old(dst)@), Seq::empty(), full) == replaced_headers(
                headers_view(dst@),
                prev@,
                full.skip(i as int),
            ),
        decreases src@.len() - i,
    {
        let ghost d0 = headers_view(dst@);
        let ghost p0 = prev@;
        proof {
            assert(full.skip(i as int)[0] == full[i as int]);
            assert(full.skip(i as int).skip(1) =~= full.skip(i + 1));
            assert(full[i as int] == (
                match src@[i as int].0 {
                    Some(n) => Some(n@),
                    None => None,
                },
                src@[i as int].1@,
            ));
        }
        let pair = &src[i];
        match &pair.0 {
            Some(n) => {
                remove_name(dst, n);
                let value = copy_bytes(&pair.1);
                let name_copy = copy_bytes(n);
                dst.push((name_copy, value));
                prev = copy_bytes(n);
                proof {
                    assert(headers_view(dst@) =~= without_name(d0, n@).push((n@, pair.1@)));
                }
            },
            None => {
                let value = copy_bytes(&pair.1);
                let prev_copy = copy_bytes(&prev);
                dst.push((prev_copy, value));
                proof {
                    assert(headers_view(dst@) =~= d0.push((p0, pair.1@)));
                }
            },
        }
        i = i + 1;
    }
    proof {
        assert(full.skip(full.len() as int) =~= Seq::<(Option<Seq<u8>>, Seq<u8>)>::empty());
        assert(headers_view(dst@) == replaced_headers(headers_view(dst@), prev@, full.skip(
            full.len() as int,
        )));
    }
}

} // verus!
