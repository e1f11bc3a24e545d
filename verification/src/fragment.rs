use vstd::prelude::*;
use vstd::seq_lib::seq_to_set_is_finite;
use vstd::set_lib::{lemma_int_range, lemma_subset_equality, set_int_range};
use std::sync::Arc;
use crate::consts::{MAX_FRAGMENTS_IN_MESSAGE, MAX_FRAGMENT_MESSAGE_SIZE};
use crate::fragment_combiner::FragmentGenerator;
use crate::misc::AsBytes;
use crate::trusted::{arc_clone, arc_from_slice, box_from_slice, vec_into_boxed_slice};

verus! {

/// One piece of an application message, small enough for one datagram.
///
/// `frag_total` is one less than the number of fragments of the message:
/// a message that fits one fragment has `frag_id == frag_total == 0`.
#[derive(Debug)]
pub struct Fragment<T> {
    pub seq_id: u32,
    pub frag_id: u8,
    pub frag_total: u8,
    pub data: T,
}

/// What a fragment is, whatever holds its bytes.
pub struct FragmentView {
    pub seq_id: u32,
    pub frag_id: u8,
    pub frag_total: u8,
    pub data: Seq<u8>,
}

impl FragmentView {
    /// The header of a fragment is valid when the fragment lies inside its
    /// message and the message has at most 64 fragments.
    pub open spec fn wf(self) -> bool {
        self.frag_id <= self.frag_total && self.frag_total <= 63
    }
}

impl<T: AsBytes> View for Fragment<T> {
    type V = FragmentView;

    open spec fn view(&self) -> FragmentView {
        FragmentView {
            seq_id: self.seq_id,
            frag_id: self.frag_id,
            frag_total: self.frag_total,
            data: self.data.bytes(),
        }
    }
}

impl<'a> Clone for Fragment<&'a [u8]> {
    fn clone(&self) -> (other: Self)
        ensures
            other == *self,
    {
        Fragment {
            seq_id: self.seq_id,
            frag_id: self.frag_id,
            frag_total: self.frag_total,
            data: self.data,
        }
    }
}

impl<'a> Fragment<&'a [u8]> {
    /// The same fragment, owning a copy of its bytes.
    pub fn into_boxed(self) -> (owned: Fragment<Box<[u8]>>)
        ensures
            owned@ == self@,
    {
        Fragment {
            seq_id: self.seq_id,
            frag_id: self.frag_id,
            frag_total: self.frag_total,
            data: box_from_slice(self.data),
        }
    }

    /// The same fragment, sharing a copy of its bytes.
    pub fn into_arc(self) -> (shared: Fragment<Arc<[u8]>>)
        ensures
            shared@ == self@,
    {
        Fragment {
            seq_id: self.seq_id,
            frag_id: self.frag_id,
            frag_total: self.frag_total,
            data: arc_from_slice(self.data),
        }
    }
}

impl Clone for Fragment<Arc<[u8]>> {
    fn clone(&self) -> (other: Self)
        ensures
            other == *self,
    {
        Fragment {
            seq_id: self.seq_id,
            frag_id: self.frag_id,
            frag_total: self.frag_total,
            data: arc_clone(&self.data),
        }
    }
}

/// The fragments as values, whatever holds their bytes.
pub open spec fn views<T: AsBytes>(fragments: Seq<Fragment<T>>) -> Seq<FragmentView> {
    fragments.map_values(|f: Fragment<T>| f@)
}

/// The fragment ids are the numbers below the number of fragments, each
/// of them once.
pub open spec fn ids_cover(fs: Seq<FragmentView>) -> bool {
    &&& forall|i: int| 0 <= i < fs.len() ==> (#[trigger] fs[i]).frag_id < fs.len()
    &&& forall|i: int, j: int|
        0 <= i < j < fs.len() ==> (#[trigger] fs[i]).frag_id != (#[trigger] fs[j]).frag_id
}

/// Where the fragment with the given id stands.
pub open spec fn position_of(fs: Seq<FragmentView>, id: int) -> int {
    choose|i: int| 0 <= i < fs.len() && (#[trigger] fs[i]).frag_id == id
}

/// The payloads, ordered by fragment id.
pub open spec fn pieces_in_order(fs: Seq<FragmentView>) -> Seq<Seq<u8>> {
    Seq::new(fs.len(), |k: int| fs[position_of(fs, k)].data)
}

/// Numbers below `n`, `n` of them and no two equal, are all the numbers
/// below `n`.
pub proof fn lemma_distinct_ids_fill_range(ids: Seq<int>)
    requires
        ids.no_duplicates(),
        forall|i: int| 0 <= i < ids.len() ==> 0 <= #[trigger] ids[i] < ids.len(),
    ensures
        forall|k: int| 0 <= k < ids.len() ==> ids.contains(k),
{
    broadcast use seq_to_set_is_finite;

    let n = ids.len() as int;
    ids.unique_seq_to_set();
    lemma_int_range(0, n);
    assert(ids.to_set().subset_of(set_int_range(0, n))) by {
        assert forall|a: int| ids.to_set().contains(a) implies set_int_range(0, n).contains(
            a,
        ) by {
            let i = choose|i: int| 0 <= i < ids.len() && ids[i] == a;
            assert(0 <= ids[i] < ids.len());
        }
    }
    lemma_subset_equality(ids.to_set(), set_int_range(0, n));
    assert forall|k: int| 0 <= k < ids.len() implies ids.contains(k) by {
        assert(set_int_range(0, n).contains(k));
        assert(ids.to_set().contains(k));
    }
}

/// Puts a message together from all of its fragments, given in any
/// order.
///
/// Fails when the fragment ids are not the numbers below the number of
/// fragments, each once. The caller vouches for the fragment count: the
/// first fragment of a full set announces as many fragments as there are.
pub fn build_data_from_fragments<T: AsBytes>(fragments: &[Fragment<T>]) -> (r: Result<
    Box<[u8]>,
    (),
>)
    requires
        fragments@.len() > 0,
        ids_cover(views(fragments@)) ==> views(fragments@)[position_of(
            views(fragments@),
            0,
        )].frag_total + 1 == fragments@.len(),
    ensures
        r is Ok <==> ids_cover(views(fragments@)),
        r matches Ok(message) ==> message@ == pieces_in_order(views(fragments@)).flatten(),
{
    let n = fragments.len();
    let ghost fs = views(fragments@);
    // Start with an empty slot per fragment and fill the slot of each id.
    // Whatever the order of the input, the slots are in order.
    let mut fragments_vec: Vec<Option<&Fragment<T>>> = Vec::new();
    let ghost mut origin: Seq<int> = Seq::empty();
    let mut i: usize = 0;
    while i < n
        invariant
            i <= n,
            fragments_vec@.len() == i,
            origin.len() == i,
            forall|k: int| 0 <= k < i ==> #[trigger] fragments_vec@[k] is None,
            forall|k: int| 0 <= k < i ==> #[trigger] origin[k] == -1,
        decreases n - i,
    {
        fragments_vec.push(None);
        proof {
            origin = origin.push(-1);
        }
        i += 1;
    }
    let mut i: usize = 0;
    while i < n
        invariant
            i <= n,
            n == fragments@.len(),
            fs == views(fragments@),
            fragments_vec@.len() == n,
            origin.len() == n,
            forall|k: int|
                0 <= k < n ==> (#[trigger] fragments_vec@[k] is Some <==> origin[k] >= 0),
            forall|k: int|
                0 <= k < n && #[trigger] origin[k] >= 0 ==> origin[k] < i && fs[origin[k]].frag_id
                    == k && fragments_vec@[k] == Some(&fragments@[origin[k]]),
            forall|j: int|
                0 <= j < i ==> (#[trigger] fs[j]).frag_id < n && origin[fs[j].frag_id as int] == j,
        decreases n - i,
    {
        let fragment = &fragments[i];
        let frag_id = fragment.frag_id as usize;
        assert(fs[i as int].frag_id == frag_id);
        if frag_id >= n || fragments_vec[frag_id].is_some() {
            proof {
                if frag_id < n {
                    let j = origin[frag_id as int];
                    assert(fs[j].frag_id == fs[i as int].frag_id);
                }
            }
            return Err(());
        }
        fragments_vec.set(frag_id, Some(fragment));
        proof {
            origin = origin.update(frag_id as int, i as int);
        }
        i += 1;
    }
    proof {
        assert(ids_cover(fs)) by {
            assert forall|a: int, b: int| 0 <= a < b < fs.len() implies (#[trigger] fs[a]).frag_id
                != (#[trigger] fs[b]).frag_id by {
                if fs[a].frag_id == fs[b].frag_id {
                    assert(origin[fs[a].frag_id as int] == a);
                    assert(origin[fs[b].frag_id as int] == b);
                }
            }
        }
        let ids = Seq::new(fs.len(), |j: int| fs[j].frag_id as int);
        assert(ids.no_duplicates());
        lemma_distinct_ids_fill_range(ids);
        assert forall|k: int| 0 <= k < n implies origin[k] >= 0 && position_of(fs, k)
            == origin[k] by {
            assert(ids.contains(k));
            let j = choose|j: int| 0 <= j < ids.len() && ids[j] == k;
            assert(fs[j].frag_id == k);
            assert(origin[fs[j].frag_id as int] == j);
            let p = position_of(fs, k);
            assert(0 <= p < fs.len() && fs[p].frag_id == k);
            assert(origin[fs[p].frag_id as int] == p);
        }
    }
    let ghost pieces = pieces_in_order(fs);
    let mut reassembled_data: Vec<u8> = Vec::new();
    let mut k: usize = 0;
    while k < n
        invariant
            k <= n,
            n == fragments@.len(),
            fs == views(fragments@),
            pieces == pieces_in_order(fs),
            fragments_vec@.len() == n,
            origin.len() == n,
            forall|k: int|
                0 <= k < n ==> 0 <= #[trigger] origin[k] < n && position_of(fs, k) == origin[k]
                    && fragments_vec@[k] == Some(&fragments@[origin[k]]),
            reassembled_data@ == pieces.take(k as int).flatten(),
        decreases n - k,
    {
        assert(origin[k as int] >= 0);
        let fragment = fragments_vec[k].unwrap();
        reassembled_data.extend_from_slice(fragment.data.as_bytes());
        proof {
            assert(fragment@ == fs[origin[k as int]]);
            assert(pieces.take(k as int + 1) =~= pieces.take(k as int).push(pieces[k as int]));
            pieces.take(k as int).lemma_flatten_push(pieces[k as int]);
        }
        k += 1;
    }
    proof {
        assert(pieces.take(n as int) =~= pieces);
    }
    Ok(vec_into_boxed_slice(reassembled_data))
}

/// Number of fragments that a message of `len` bytes is split into.
pub open spec fn fragment_count(len: nat) -> nat {
    ((len + MAX_FRAGMENT_MESSAGE_SIZE - 1) / (MAX_FRAGMENT_MESSAGE_SIZE as int)) as nat
}

/// The `k`-th piece of a message: a full fragment payload, or what is
/// left of the message for the last piece.
pub open spec fn chunk(data: Seq<u8>, k: int) -> Seq<u8> {
    let start = k * MAX_FRAGMENT_MESSAGE_SIZE;
    let end = if start + MAX_FRAGMENT_MESSAGE_SIZE < data.len() {
        start + MAX_FRAGMENT_MESSAGE_SIZE
    } else {
        data.len() as int
    };
    data.subrange(start, end)
}

/// The fragments of a message, in order.
pub open spec fn split(data: Seq<u8>, seq_id: u32) -> Seq<FragmentView> {
    let n = fragment_count(data.len());
    Seq::new(
        n,
        |k: int|
            FragmentView { seq_id, frag_id: k as u8, frag_total: (n - 1) as u8, data: chunk(data, k) },
    )
}

/// The first `m` pieces of a message, put end to end, are its first bytes.
pub proof fn lemma_chunks_concat(data: Seq<u8>, m: nat)
    requires
        m <= fragment_count(data.len()),
    ensures
        Seq::new(m, |k: int| chunk(data, k)).flatten() == data.subrange(
            0,
            if m * MAX_FRAGMENT_MESSAGE_SIZE < data.len() {
                m * MAX_FRAGMENT_MESSAGE_SIZE
            } else {
                data.len() as int
            },
        ),
    decreases m,
{
    let pieces = Seq::new(m, |k: int| chunk(data, k));
    assert(MAX_FRAGMENT_MESSAGE_SIZE == 1280);
    if m == 0 {
        assert(pieces =~= Seq::<Seq<u8>>::empty());
        assert(pieces.flatten() =~= Seq::<u8>::empty());
    } else {
        let shorter = Seq::new((m - 1) as nat, |k: int| chunk(data, k));
        lemma_chunks_concat(data, (m - 1) as nat);
        assert(pieces =~= shorter.push(chunk(data, m - 1)));
        shorter.lemma_flatten_push(chunk(data, m - 1));
        assert(fragment_count(data.len()) == (data.len() + 1279) / 1280);
        assert((m - 1) * 1280 < data.len());
        assert(shorter.flatten() == data.subrange(0, (m - 1) * 1280));
        assert(chunk(data, m - 1) == data.subrange(
            (m - 1) * 1280,
            if m * 1280 < data.len() {
                (m * 1280) as int
            } else {
                data.len() as int
            },
        ));
        assert(shorter.flatten() + chunk(data, m - 1) =~= data.subrange(
            0,
            if m * MAX_FRAGMENT_MESSAGE_SIZE < data.len() {
                m * MAX_FRAGMENT_MESSAGE_SIZE
            } else {
                data.len() as int
            },
        ));
    }
}

/// The payloads of the fragments of a message, put end to end, are the
/// message.
pub proof fn lemma_split_concat(data: Seq<u8>, seq_id: u32)
    ensures
        split(data, seq_id).map_values(|f: FragmentView| f.data).flatten() == data,
{
    let n = fragment_count(data.len());
    assert(MAX_FRAGMENT_MESSAGE_SIZE == 1280);
    lemma_chunks_concat(data, n);
    assert(n == (data.len() + 1279) / 1280);
    assert(n * 1280 >= data.len());
    assert(split(data, seq_id).map_values(|f: FragmentView| f.data) =~= Seq::new(
        n,
        |k: int| chunk(data, k),
    ));
    assert(data.subrange(0, data.len() as int) =~= data);
}

/// Splits a message into fragments, produced one by one on demand.
///
/// Fails when the message needs more than 64 fragments. An empty message
/// is not a message: the caller sends at least one byte.
pub fn build_fragments_from_data<'a>(data: &'a [u8], seq_id: u32) -> (r: Result<
    FragmentGenerator<'a>,
    (),
>)
    requires
        data@.len() > 0,
    ensures
        r is Err <==> fragment_count(data@.len()) > MAX_FRAGMENTS_IN_MESSAGE,
        r matches Ok(generator) ==> generator@ == split(data@, seq_id),
{
    let mut fragments_count: usize = data.len() / MAX_FRAGMENT_MESSAGE_SIZE;
    if data.len() % MAX_FRAGMENT_MESSAGE_SIZE != 0 {
        // A remainder is left over behind the full fragments: it gets a
        // fragment of its own.
        fragments_count += 1;
    }
    if fragments_count > MAX_FRAGMENTS_IN_MESSAGE {
        return Err(());
    }
    let frag_total = (fragments_count - 1) as u8;
    Ok(FragmentGenerator::new(data, seq_id, frag_total))
}

} // verus!
