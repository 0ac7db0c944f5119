//! Lists of resource hashes to extract: gathering them without repetition, keeping those
//! whose output file is missing, splitting them between worker threads, and finding the
//! package that holds each one.
use vstd::prelude::*;
use rpkg_rs::resource::partition_manager::PartitionManager;
use crate::package::package_scan::{PackageScan, mounted_contents, resource_lookup};
use crate::package::resource_ids::{parse_rrid_hex, normalized_rrid, rrid_from_hex};

verus! {

/// The texts of a list of strings.
pub open spec fn texts(v: Seq<String>) -> Seq<Seq<char>> {
    v.map_values(|s: String| s@)
}

/// No text occurs twice.
pub open spec fn distinct_texts(v: Seq<Seq<char>>) -> bool {
    forall|i: int, j: int| 0 <= i < j < v.len() ==> v[i] != v[j]
}

/// Adds `t` to `out` unless it is there already.
pub fn add_distinct(out: &mut Vec<String>, t: &String)
    requires
        distinct_texts(texts(old(out)@)),
    ensures
        distinct_texts(texts(final(out)@)),
        texts(final(out)@).to_set() == texts(old(out)@).to_set().insert(t@),
        texts(old(out)@).contains(t@) ==> final(out)@ == old(out)@,
        !texts(old(out)@).contains(t@) ==> texts(final(out)@) == texts(old(out)@).push(t@),
{
    let mut i: usize = 0;
    while i < out.len()
        invariant
            i <= out@.len(),
            out@ == old(out)@,
            distinct_texts(texts(out@)),
            forall|j: int| 0 <= j < i ==> out@[j]@ != t@,
        decreases out.len() - i,
    {
        if out[i] == *t {
            proof {
                assert(texts(out@)[i as int] == t@);
                assert(texts(out@).to_set() =~= texts(out@).to_set().insert(t@));
            }
            return;
        }
        i = i + 1;
    }
    let ghost before = texts(out@);
    out.push(t.clone());
    proof {
        assert(texts(out@) =~= before.push(t@));
        assert(!before.contains(t@)) by {
            if before.contains(t@) {
                let j = choose|j: int| 0 <= j < before.len() && before[j] == t@;
                assert(out@[j]@ == t@);
            }
        }
        assert(texts(out@).to_set() =~= before.to_set().insert(t@)) by {
            assert forall|x: Seq<char>| texts(out@).to_set().contains(x) <==> before.to_set().insert(t@).contains(x) by {
                if texts(out@).contains(x) {
                    let j = choose|j: int| 0 <= j < texts(out@).len() && texts(out@)[j] == x;
                    if j < before.len() {
                        assert(before[j] == x);
                    }
                }
                if before.contains(x) {
                    let j = choose|j: int| 0 <= j < before.len() && before[j] == x;
                    assert(texts(out@)[j] == x);
                }
                if x == t@ {
                    assert(texts(out@)[before.len() as int] == x);
                }
            }
        }
    }
}

/// The texts of `s`, each at its first occurrence, in order.
pub open spec fn first_occurrences(s: Seq<Seq<char>>) -> Seq<Seq<char>>
    decreases s.len(),
{
    if s.len() == 0 {
        Seq::empty()
    } else {
        let r = first_occurrences(s.drop_last());
        if r.contains(s.last()) {
            r
        } else {
            r.push(s.last())
        }
    }
}

/// Gathers the texts of `items`, each once, in order of first occurrence.
pub fn gather_distinct(items: &Vec<String>) -> (res: Vec<String>)
    ensures
        texts(res@) == first_occurrences(texts(items@)),
        distinct_texts(texts(res@)),
        texts(res@).to_set() == texts(items@).to_set(),
{
    let mut out: Vec<String> = Vec::new();
    let mut i: usize = 0;
    while i < items.len()
        invariant
            i <= items@.len(),
            distinct_texts(texts(out@)),
            texts(out@).to_set() == texts(items@.take(i as int)).to_set(),
            texts(out@) == first_occurrences(texts(items@.take(i as int))),
        decreases items.len() - i,
    {
        add_distinct(&mut out, &items[i]);
        proof {
            assert(texts(items@.take(i + 1)).drop_last() =~= texts(items@.take(i as int)));
            assert(texts(items@.take(i + 1)).last() == items@[i as int]@);
            assert(texts(items@.take(i + 1)) =~= texts(items@.take(i as int)).push(items@[i as int]@));
            assert(texts(items@.take(i + 1)).to_set() =~= texts(items@.take(i as int)).to_set().insert(items@[i as int]@)) by {
                let a = texts(items@.take(i as int));
                let b = texts(items@.take(i + 1));
                assert forall|x: Seq<char>| b.to_set().contains(x) <==> a.to_set().insert(items@[i as int]@).contains(x) by {
                    if b.contains(x) {
                        let j = choose|j: int| 0 <= j < b.len() && b[j] == x;
                        if j < a.len() {
                            assert(a[j] == x);
                        }
                    }
                    if a.contains(x) {
                        let j = choose|j: int| 0 <= j < a.len() && a[j] == x;
                        assert(b[j] == x);
                    }
                    if x == items@[i as int]@ {
                        assert(b[i as int] == x);
                    }
                }
            }
        }
        i = i + 1;
    }
    proof {
        assert(items@.take(items@.len() as int) =~= items@);
    }
    out
}

/// The texts of `hashes` whose flag in `present` is false, in order.
pub open spec fn missing(hashes: Seq<Seq<char>>, present: Seq<bool>) -> Seq<Seq<char>>
    decreases hashes.len(),
{
    if hashes.len() == 0 || present.len() != hashes.len() {
        Seq::empty()
    } else {
        let rest = missing(hashes.drop_last(), present.drop_last());
        if present.last() {
            rest
        } else {
            rest.push(hashes.last())
        }
    }
}

/// The hashes to extract are exactly those whose file is absent: a text is among them if
/// and only if some position holds it with its flag false, and with no flag set every hash
/// is kept, in order.
pub proof fn law_missing_exact(hs: Seq<Seq<char>>, p: Seq<bool>)
    requires
        hs.len() == p.len(),
    ensures
        forall|x: Seq<char>| missing(hs, p).contains(x) <==> exists|i: int| 0 <= i < hs.len() && !p[i] && hs[i] == x,
        (forall|i: int| 0 <= i < p.len() ==> !p[i]) ==> missing(hs, p) == hs,
        missing(hs, p).len() <= hs.len(),
    decreases hs.len(),
{
    if hs.len() > 0 {
        let hd = hs.drop_last();
        let pd = p.drop_last();
        law_missing_exact(hd, pd);
        let rest = missing(hd, pd);
        assert forall|x: Seq<char>| missing(hs, p).contains(x) <==> exists|i: int| 0 <= i < hs.len() && !p[i] && hs[i] == x by {
            if missing(hs, p).contains(x) {
                if rest.contains(x) {
                    let i = choose|i: int| 0 <= i < hd.len() && !pd[i] && hd[i] == x;
                    assert(!p[i] && hs[i] == x);
                } else {
                    let j = choose|j: int| 0 <= j < missing(hs, p).len() && missing(hs, p)[j] == x;
                    assert(j == rest.len());
                    assert(!p[hs.len() - 1] && hs[hs.len() - 1] == x);
                }
            }
            if exists|i: int| 0 <= i < hs.len() && !p[i] && hs[i] == x {
                let i = choose|i: int| 0 <= i < hs.len() && !p[i] && hs[i] == x;
                if i < hs.len() - 1 {
                    assert(!pd[i] && hd[i] == x);
                    assert(rest.contains(x));
                    let j = choose|j: int| 0 <= j < rest.len() && rest[j] == x;
                    if !p.last() {
                        assert(missing(hs, p)[j] == x);
                    }
                } else {
                    assert(missing(hs, p)[rest.len() as int] == x);
                }
            }
        }
        if forall|i: int| 0 <= i < p.len() ==> !p[i] {
            assert(forall|i: int| 0 <= i < pd.len() ==> !pd[i]);
            assert(!p[p.len() - 1]);
            assert(hd.push(hs.last()) =~= hs);
        }
    }
}

/// Keeps the hashes whose output file is not present, in order.
pub fn select_missing(hashes: &Vec<String>, present: &Vec<bool>) -> (res: Vec<String>)
    requires
        hashes@.len() == present@.len(),
    ensures
        texts(res@) == missing(texts(hashes@), present@),
{
    let mut out: Vec<String> = Vec::new();
    let mut i: usize = 0;
    while i < hashes.len()
        invariant
            i <= hashes@.len(),
            hashes@.len() == present@.len(),
            texts(out@) == missing(texts(hashes@.take(i as int)), present@.take(i as int)),
        decreases hashes.len() - i,
    {
        proof {
            assert(texts(hashes@.take(i + 1)).drop_last() =~= texts(hashes@.take(i as int)));
            assert(present@.take(i + 1).drop_last() =~= present@.take(i as int));
        }
        if !present[i] {
            out.push(hashes[i].clone());
            proof {
                assert(texts(out@) =~= missing(texts(hashes@.take(i as int)), present@.take(i as int)).push(hashes@[i as int]@));
            }
        }
        i = i + 1;
    }
    proof {
        assert(hashes@.take(hashes@.len() as int) =~= hashes@);
        assert(present@.take(present@.len() as int) =~= present@);
    }
    out
}

/// `s` cut into consecutive pieces of `size` elements, the last one possibly shorter.
pub open spec fn chunks_of(s: Seq<Seq<char>>, size: nat) -> Seq<Seq<Seq<char>>>
    decreases s.len(),
{
    if s.len() == 0 || size == 0 {
        Seq::empty()
    } else if s.len() <= size {
        seq![s]
    } else {
        seq![s.take(size as int)] + chunks_of(s.skip(size as int), size)
    }
}

/// The pieces put back together.
pub open spec fn flatten(chunks: Seq<Seq<Seq<char>>>) -> Seq<Seq<char>>
    decreases chunks.len(),
{
    if chunks.len() == 0 {
        Seq::empty()
    } else {
        chunks[0] + flatten(chunks.drop_first())
    }
}

/// How many workers the extraction spreads its work over.
pub const TARGET_NUM_THREADS: usize = 10;

/// Cuts the hashes into consecutive chunks of `size`, the last one possibly shorter.
pub fn split_into_chunks(hashes: &Vec<String>, size: usize) -> (res: Vec<Vec<String>>)
    requires
        size > 0,
    ensures
        res@.map_values(|c: Vec<String>| texts(c@)) == chunks_of(texts(hashes@), size as nat),
{
    let mut out: Vec<Vec<String>> = Vec::new();
    let mut start: usize = 0;
    let n = hashes.len();
    proof {
        assert(texts(hashes@).skip(0) =~= texts(hashes@));
        assert(out@.map_values(|c: Vec<String>| texts(c@)) + chunks_of(texts(hashes@), size as nat) =~= chunks_of(texts(hashes@), size as nat));
    }
    while start < n
        invariant
            n == hashes@.len(),
            size > 0,
            start <= n,
            out@.map_values(|c: Vec<String>| texts(c@)) + chunks_of(texts(hashes@).skip(start as int), size as nat)
                == chunks_of(texts(hashes@), size as nat),
        decreases n - start,
    {
        let end = if n - start <= size { n } else { start + size };
        let mut chunk: Vec<String> = Vec::new();
        let mut k: usize = start;
        while k < end
            invariant
                start <= k <= end <= n,
                n == hashes@.len(),
                texts(chunk@) == texts(hashes@).subrange(start as int, k as int),
            decreases end - k,
        {
            let ghost prev = texts(chunk@);
            chunk.push(hashes[k].clone());
            proof {
                assert(texts(chunk@) =~= prev.push(hashes@[k as int]@));
                assert(texts(hashes@).subrange(start as int, k + 1) =~= texts(hashes@).subrange(start as int, k as int).push(texts(hashes@)[k as int]));
            }
            k = k + 1;
        }
        let ghost rest = texts(hashes@).skip(start as int);
        let ghost before = out@.map_values(|c: Vec<String>| texts(c@));
        out.push(chunk);
        proof {
            assert(out@.map_values(|c: Vec<String>| texts(c@)) =~= before.push(texts(hashes@).subrange(start as int, end as int)));
            let sub = texts(hashes@).subrange(start as int, end as int);
            assert(rest.len() == n - start);
            if n - start <= size {
                assert(rest =~= sub);
                assert(texts(hashes@).skip(end as int) =~= Seq::<Seq<char>>::empty());
                assert(chunks_of(texts(hashes@).skip(end as int), size as nat) =~= Seq::<Seq<Seq<char>>>::empty());
                assert(chunks_of(rest, size as nat) == seq![rest]);
                assert(before.push(sub) + chunks_of(texts(hashes@).skip(end as int), size as nat) =~= before + seq![sub]);
            } else {
                assert(rest.take(size as int) =~= sub);
                assert(rest.skip(size as int) =~= texts(hashes@).skip(end as int));
                assert(chunks_of(rest, size as nat) == seq![rest.take(size as int)] + chunks_of(rest.skip(size as int), size as nat));
                assert(before.push(sub) + chunks_of(texts(hashes@).skip(end as int), size as nat)
                    =~= before + (seq![sub] + chunks_of(texts(hashes@).skip(end as int), size as nat)));
            }
        }
        start = end;
    }
    proof {
        assert(texts(hashes@).skip(n as int) =~= Seq::<Seq<char>>::empty());
        assert(out@.map_values(|c: Vec<String>| texts(c@)) + Seq::<Seq<Seq<char>>>::empty() =~= out@.map_values(|c: Vec<String>| texts(c@)));
    }
    out
}

/// The chunk size that spreads `count` hashes over the workers: `count` divided by the
/// number of workers, rounded up.
pub open spec fn chunk_size_for(count: nat) -> nat {
    ((count + TARGET_NUM_THREADS - 1) / TARGET_NUM_THREADS as int) as nat
}

/// Splits the hashes between the workers: chunks of `chunk_size_for(len)` hashes.
pub fn thread_chunks(hashes: &Vec<String>) -> (res: Vec<Vec<String>>)
    requires
        hashes@.len() > 0,
    ensures
        res@.map_values(|c: Vec<String>| texts(c@)) == chunks_of(texts(hashes@), chunk_size_for(hashes@.len())),
{
    let n = hashes.len();
    let size = n / TARGET_NUM_THREADS + if n % TARGET_NUM_THREADS == 0 { 0 } else { 1 };
    assert(size == chunk_size_for(n as nat)) by (nonlinear_arith)
        requires
            size == n / 10 + if n % 10 == 0 { 0int } else { 1int },
            TARGET_NUM_THREADS == 10;
    split_into_chunks(hashes, size)
}

/// Putting the chunks back together gives the hashes, in order.
pub proof fn law_chunks_flatten(s: Seq<Seq<char>>, size: nat)
    requires
        size > 0,
    ensures
        flatten(chunks_of(s, size)) == s,
        forall|i: int| 0 <= i < chunks_of(s, size).len() ==> 0 < #[trigger] chunks_of(s, size)[i].len() <= size,
    decreases s.len(),
{
    if s.len() == 0 {
    } else if s.len() <= size {
        let c = chunks_of(s, size);
        assert(c.drop_first() =~= Seq::<Seq<Seq<char>>>::empty());
        assert(flatten(c.drop_first()) == Seq::<Seq<char>>::empty());
        assert(flatten(c) =~= s + Seq::<Seq<char>>::empty());
    } else {
        law_chunks_flatten(s.skip(size as int), size);
        let c = chunks_of(s, size);
        assert(c.drop_first() =~= chunks_of(s.skip(size as int), size));
        assert(s =~= s.take(size as int) + s.skip(size as int));
        assert forall|i: int| 0 <= i < c.len() implies 0 < #[trigger] c[i].len() <= size by {
            if i > 0 {
                assert(c[i] == chunks_of(s.skip(size as int), size)[i - 1]);
            }
        }
    }
}

/// `s` needs at most `k` chunks of `size` when it has at most `k * size` elements.
proof fn lemma_chunk_count(s: Seq<Seq<char>>, size: nat, k: nat)
    requires
        size > 0,
        s.len() <= k * size,
    ensures
        chunks_of(s, size).len() <= k,
    decreases s.len(),
{
    if s.len() > size {
        assert(k >= 1) by (nonlinear_arith)
            requires
                s.len() <= k * size,
                s.len() > size;
        assert((k - 1) * size == k * size - size) by (nonlinear_arith);
        lemma_chunk_count(s.skip(size as int), size, (k - 1) as nat);
    } else if s.len() > 0 {
        assert(k >= 1) by (nonlinear_arith)
            requires
                s.len() <= k * size,
                s.len() > 0;
    }
}

/// The split never needs more chunks than there are workers, and puts back together to
/// the hashes it was given.
pub proof fn law_thread_chunks(s: Seq<Seq<char>>)
    requires
        s.len() > 0,
    ensures
        chunks_of(s, chunk_size_for(s.len())).len() <= TARGET_NUM_THREADS,
        flatten(chunks_of(s, chunk_size_for(s.len()))) == s,
{
    let size = chunk_size_for(s.len());
    assert(size > 0 && s.len() <= 10 * size) by (nonlinear_arith)
        requires
            size == (s.len() + 9) / 10,
            s.len() > 0;
    lemma_chunk_count(s, size, 10);
    law_chunks_flatten(s, size);
}

/// Why a hash could not be located.
#[derive(Clone, Copy, PartialEq, Eq, Structural, Debug)]
pub enum LocateError {
    /// The hash is not a valid runtime resource identifier.
    InvalidRuntimeResourceId,
    /// No mounted partition holds a live version of the resource.
    ResourceNotMounted,
}

/// Finds the resource a hash names and the file name of the package that holds its live
/// version.
pub fn locate_resource(pm: &PartitionManager, hash: &String) -> (res: Result<(u64, String), LocateError>)
    ensures
        match res {
            Ok((rrid, package)) => {
                &&& parse_rrid_hex(hash@) == Some(rrid)
                &&& resource_lookup(mounted_contents(*pm), normalized_rrid(rrid)) matches Some(e)
                &&& package@ == e.0
            },
            Err(LocateError::InvalidRuntimeResourceId) => parse_rrid_hex(hash@) is None,
            Err(LocateError::ResourceNotMounted) => {
                &&& parse_rrid_hex(hash@) matches Some(r)
                &&& resource_lookup(mounted_contents(*pm), normalized_rrid(r)) is None
            },
        },
{
    let rrid = match rrid_from_hex(hash.as_str()) {
        Some(r) => r,
        None => {
            return Err(LocateError::InvalidRuntimeResourceId);
        },
    };
    match PackageScan::get_resource_info(pm, rrid) {
        Some(info) => Ok((rrid, info.last_partition)),
        None => Err(LocateError::ResourceNotMounted),
    }
}

/// The output file name of a resource: its hash followed by the extension.
pub fn output_file_name(hash: &String, extension: &str) -> (res: String)
    ensures
        res@ == hash@ + "."@ + extension@,
{
    let mut name = hash.clone();
    name.append(".");
    name.append(extension);
    name
}

} // verus!
