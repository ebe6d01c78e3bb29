//! Hiding a byte string in the order of a file's Huffman symbols, and
//! reading it back.

use crate::bignum::{be_value, canonical, lemma_canonical_unique};
use crate::error::JpegError;
use crate::ns1::{big_tables, size_sum, sizes_fit, valid_sizes};
use crate::ns2::{capacity, lemma_nested_round_trip, max_base_value, sizes_view, values_view, NS2};
use vstd::prelude::*;

verus! {

/// The two bytes that mark a hidden secret.
pub open spec fn magic() -> Seq<u8> {
    seq![0xBEu8, 0xEFu8]
}

/// The secret behind its header.
pub open spec fn envelope(secret: Seq<u8>) -> Seq<u8> {
    magic() + secret
}

/// The secret in `data`, if `data` starts with the header.
pub open spec fn opened(data: Seq<u8>) -> Option<Seq<u8>> {
    if data.len() >= 2 && data[0] == 0xBE && data[1] == 0xEF {
        Some(data.subrange(2, data.len() as int))
    } else {
        None
    }
}

/// Puts the header in front of the secret.
pub fn encode_secret(secret: &Vec<u8>) -> (r: Vec<u8>)
    ensures
        r@ == envelope(secret@),
{
    let mut output: Vec<u8> = Vec::new();
    output.push(0xBE);
    output.push(0xEF);
    crate::jpeg::push_all(&mut output, secret);
    assert(output@ =~= envelope(secret@));
    output
}

/// The secret behind the header, or `None` when the header is missing.
pub fn decode_secret(data: &Vec<u8>) -> (r: Option<Vec<u8>>)
    ensures
        r matches Some(s) ==> opened(data@) == Some(s@),
        r is None ==> opened(data@) is None,
{
    if data.len() >= 2 && data[0] == 0xBE && data[1] == 0xEF {
        Some(crate::jpeg::copy_range(data, 2, data.len()))
    } else {
        None
    }
}

/// Each table's groups fit its values, and its values are distinct.
pub open spec fn tables_ok(sizes: Seq<Seq<usize>>, values: Seq<Seq<u8>>) -> bool {
    &&& sizes.len() == values.len()
    &&& forall|k: int|
        0 <= k < sizes.len() ==> size_sum(big_tables(#[trigger] sizes[k])) <= values[k].len()
            && values[k].no_duplicates() && values[k].len() <= usize::MAX
}

/// Whether the bytes are pairwise distinct.
pub fn all_distinct(v: &Vec<u8>) -> (r: bool)
    ensures
        r == v@.no_duplicates(),
{
    let mut seen: Vec<bool> = Vec::new();
    let mut b: usize = 0;
    while b < 256
        invariant
            b <= 256,
            seen@.len() == b,
            forall|x: int| 0 <= x < b ==> !seen@[x],
        decreases 256 - b,
    {
        seen.push(false);
        b = b + 1;
    }
    let mut i: usize = 0;
    while i < v.len()
        invariant
            i <= v@.len(),
            seen@.len() == 256,
            v@.take(i as int).no_duplicates(),
            forall|x: int| 0 <= x < 256 ==> (seen@[x] <==> v@.take(i as int).contains(x as u8)),
        decreases v@.len() - i,
    {
        let x = v[i];
        if seen[x as usize] {
            proof {
                let j = choose|j: int| 0 <= j < i && v@.take(i as int)[j] == x;
                assert(v@[j] == v@[i as int]);
            }
            return false;
        }
        let ghost before = v@.take(i as int);
        let ghost after = v@.take(i + 1);
        seen.set(x as usize, true);
        proof {
            assert(after =~= before.push(x));
            assert forall|y: int| 0 <= y < 256 implies (seen@[y] <==> after.contains(y as u8)) by {
                if after.contains(y as u8) && y as u8 != x {
                    let j = choose|j: int| 0 <= j < after.len() && after[j] == y as u8;
                    assert(before[j] == y as u8);
                }
                if y as u8 == x {
                    assert(after[i as int] == x);
                }
                if before.contains(y as u8) {
                    let j = choose|j: int| 0 <= j < before.len() && before[j] == y as u8;
                    assert(after[j] == y as u8);
                }
            }
            assert(after.no_duplicates()) by {
                assert forall|a: int, b: int| 0 <= a < b < after.len() implies after[a] != after[b] by {
                    if b == i {
                        assert(before.contains(after[a]));
                    }
                }
            }
        }
        i = i + 1;
    }
    assert(v@.take(i as int) =~= v@);
    true
}

/// Checks [`tables_ok`].
pub fn check_tables(sizes: &Vec<Vec<usize>>, values: &Vec<Vec<u8>>) -> (r: bool)
    ensures
        r == tables_ok(sizes_view(sizes@), values_view(values@)),
{
    if sizes.len() != values.len() {
        return false;
    }
    let mut k: usize = 0;
    while k < sizes.len()
        invariant
            k <= sizes@.len(),
            sizes@.len() == values@.len(),
            forall|j: int|
                0 <= j < k ==> size_sum(big_tables(#[trigger] sizes_view(sizes@)[j]))
                    <= values_view(values@)[j].len() && values_view(values@)[j].no_duplicates()
                    && values_view(values@)[j].len() <= usize::MAX,
        decreases sizes@.len() - k,
    {
        let t = valid_sizes(&sizes[k]);
        if !sizes_fit(&t, values[k].len()) || !all_distinct(&values[k]) {
            proof {
                assert(sizes_view(sizes@)[k as int] == sizes@[k as int]@);
                assert(values_view(values@)[k as int] == values@[k as int]@);
            }
            return false;
        }
        proof {
            assert(sizes_view(sizes@)[k as int] == sizes@[k as int]@);
            assert(values_view(values@)[k as int] == values@[k as int]@);
        }
        k = k + 1;
    }
    true
}

/// What a byte string found, as a sequence.
pub open spec fn found_view(found: Option<Vec<u8>>) -> Option<Seq<u8>> {
    match found {
        Some(s) => Some(s@),
        None => None,
    }
}

/// `found` is what the tables hold: the digits that the order of each
/// table's groups names give a number whose shortest bytes, opened, are
/// `found`.
pub open spec fn recovered_from(sizes: Seq<Seq<usize>>, values: Seq<Seq<u8>>, found: Option<Seq<u8>>) -> bool {
    exists|read: NS2, data: Seq<u8>|
        {
            &&& read.fits(sizes)
            &&& forall|k: int|
                0 <= k < sizes.len() ==> crate::ns1::read_groups(
                    #[trigger] values[k],
                    big_tables(sizes[k]),
                    read.digits@[k].digits@,
                )
            &&& canonical(data)
            &&& be_value(data) == read.value(sizes)
            &&& opened(data) == found
        }
}

/// Hides `secret` in the order of the tables' values; fails with
/// [`JpegError::SecretTooLarge`] when the secret with its header does not
/// fit, and with [`JpegError::ParseError`] when a table's values do not fit
/// its sizes or repeat.
pub fn hide_in_tables(sizes: &Vec<Vec<usize>>, values: &mut Vec<Vec<u8>>, secret: &Vec<u8>) -> (r: Result<NS2, JpegError>)
    ensures
        !tables_ok(sizes_view(sizes@), values_view(old(values)@)) ==> r == Err::<NS2, JpegError>(
            JpegError::ParseError,
        ),
        tables_ok(sizes_view(sizes@), values_view(old(values)@)) ==> {
            &&& (r == Err::<NS2, JpegError>(JpegError::SecretTooLarge) <==> be_value(
                envelope(secret@),
            ) >= capacity(sizes_view(sizes@)))
            &&& r is Err ==> final(values)@ == old(values)@
            &&& be_value(envelope(secret@)) < capacity(sizes_view(sizes@)) ==> r is Ok
            &&& r is Ok ==> tables_ok(sizes_view(sizes@), values_view(final(values)@))
            &&& r is Ok ==> forall|found: Option<Seq<u8>>|
                #[trigger] recovered_from(sizes_view(sizes@), values_view(final(values)@), found) ==> found
                    == Some(secret@)
            &&& r matches Ok(ns) ==> {
                &&& ns.fits(sizes_view(sizes@))
                &&& ns.value(sizes_view(sizes@)) == be_value(envelope(secret@))
                &&& final(values)@.len() == old(values)@.len()
                &&& forall|k: int|
                    0 <= k < sizes@.len() ==> crate::ns1::permuted_groups(
                        #[trigger] old(values)@[k]@,
                        final(values)@[k]@,
                        big_tables(sizes@[k]@),
                        ns.digits@[k].digits@,
                    )
            }
        },
{
    if !check_tables(sizes, values) {
        return Err(JpegError::ParseError);
    }
    let value = encode_secret(secret);
    let ns = match NS2::try_from_input(&value, sizes) {
        Some(ns) => ns,
        None => {
            return Err(JpegError::SecretTooLarge);
        },
    };
    proof {
        assert forall|k: int| 0 <= k < sizes@.len() implies size_sum(
            big_tables(#[trigger] sizes@[k]@),
        ) <= old(values)@[k]@.len() by {
            assert(sizes_view(sizes@)[k] == sizes@[k]@);
            assert(values_view(old(values)@)[k] == old(values)@[k]@);
        }
    }
    ns.permute_values(sizes, values);
    proof {
        let g = sizes_view(sizes@);
        let o = values_view(old(values)@);
        let n = values_view(values@);
        assert forall|k: int| 0 <= k < g.len() implies crate::ns1::permuted_groups(
            #[trigger] o[k],
            n[k],
            big_tables(g[k]),
            ns.digits@[k].digits@,
        ) by {
            assert(o[k] == old(values)@[k]@);
            assert(n[k] == values@[k]@);
            assert(g[k] == sizes@[k]@);
        }
        assert forall|k: int| 0 <= k < g.len() implies size_sum(big_tables(#[trigger] g[k])) <= n[k].len()
            && n[k].no_duplicates() && n[k].len() <= usize::MAX by {
            assert(o[k] == old(values)@[k]@);
            assert(n[k] == values@[k]@);
            assert(size_sum(big_tables(g[k])) <= o[k].len() && o[k].no_duplicates());
        }
        assert(tables_ok(g, n));
        assert forall|found: Option<Seq<u8>>| #[trigger] recovered_from(g, n, found) implies found == Some(
            secret@,
        ) by {
            lemma_secret_round_trip(g, o, n, ns, secret@, found);
        }
    }
    Ok(ns)
}

/// The secret hidden in the order of the tables' values, if the number
/// they hold starts with the header; fails with [`JpegError::ParseError`]
/// when a table's values do not fit its sizes or repeat.
pub fn recover_from_tables(sizes: &Vec<Vec<usize>>, values: &Vec<Vec<u8>>) -> (r: Result<Option<Vec<u8>>, JpegError>)
    ensures
        r is Err <==> !tables_ok(sizes_view(sizes@), values_view(values@)),
        r matches Err(e) ==> e == JpegError::ParseError,
        r matches Ok(found) ==> recovered_from(sizes_view(sizes@), values_view(values@), found_view(found)),
{
    if !check_tables(sizes, values) {
        return Err(JpegError::ParseError);
    }
    proof {
        assert forall|k: int| 0 <= k < values@.len() implies (#[trigger] values@[k])@.no_duplicates() by {
            assert(sizes_view(sizes@)[k] == sizes@[k]@);
            assert(values_view(values@)[k] == values@[k]@);
        }
        assert forall|k: int| 0 <= k < sizes@.len() implies size_sum(
            big_tables(#[trigger] sizes@[k]@),
        ) <= values@[k]@.len() by {
            assert(sizes_view(sizes@)[k] == sizes@[k]@);
            assert(values_view(values@)[k] == values@[k]@);
        }
    }
    let read = NS2::read_values(sizes, values);
    let data = read.to_value(sizes);
    let found = decode_secret(&data);
    proof {
        assert forall|k: int| 0 <= k < sizes_view(sizes@).len() implies crate::ns1::read_groups(
            #[trigger] values_view(values@)[k],
            big_tables(sizes_view(sizes@)[k]),
            read.digits@[k].digits@,
        ) by {
            assert(values@[k]@ == values_view(values@)[k]);
            assert(sizes@[k]@ == sizes_view(sizes@)[k]);
        }
        assert(recovered_from(sizes_view(sizes@), values_view(values@), found_view(found)));
    }
    Ok(found)
}

/// The largest secret a set of tables can hold is about this many bytes:
/// the length of their capacity written out.
pub fn approx_max_size(sizes: &Vec<Vec<usize>>) -> (r: usize)
    ensures
        exists|c: Seq<u8>| canonical(c) && be_value(c) == capacity(sizes_view(sizes@)) && r == c.len(),
{
    let c = max_base_value(sizes);
    c.len()
}

/// A secret hidden in a set of tables is found again: whatever is
/// recovered from the permuted tables is the secret.
pub proof fn lemma_secret_round_trip(
    sizes: Seq<Seq<usize>>,
    old: Seq<Seq<u8>>,
    new: Seq<Seq<u8>>,
    ns: NS2,
    secret: Seq<u8>,
    found: Option<Seq<u8>>,
)
    requires
        tables_ok(sizes, old),
        ns.fits(sizes),
        ns.value(sizes) == be_value(envelope(secret)),
        new.len() == old.len(),
        forall|k: int|
            0 <= k < sizes.len() ==> crate::ns1::permuted_groups(
                #[trigger] old[k],
                new[k],
                big_tables(sizes[k]),
                ns.digits@[k].digits@,
            ),
        recovered_from(sizes, new, found),
    ensures
        found == Some(secret),
{
    let (read, data) = choose|read: NS2, data: Seq<u8>|
        {
            &&& read.fits(sizes)
            &&& forall|k: int|
                0 <= k < sizes.len() ==> crate::ns1::read_groups(
                    #[trigger] new[k],
                    big_tables(sizes[k]),
                    read.digits@[k].digits@,
                )
            &&& canonical(data)
            &&& be_value(data) == read.value(sizes)
            &&& opened(data) == found
        };
    assert forall|k: int| 0 <= k < sizes.len() implies (#[trigger] old[k]).no_duplicates()
        && size_sum(big_tables(sizes[k])) <= old[k].len() && old[k].len() <= usize::MAX by {
    }
    lemma_nested_round_trip(sizes, ns, old, new, read);
    let e = envelope(secret);
    assert(e[0] == 0xBE);
    lemma_canonical_unique(data, e);
    assert(e.subrange(2, e.len() as int) =~= secret);
}

} // verus!
