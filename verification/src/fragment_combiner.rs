use vstd::prelude::*;
use vstd::set_lib::{lemma_len_subset, lemma_subset_equality};
use vstd::slice::slice_subrange;
use fnv::FnvHashMap;
use std::collections::VecDeque;
use crate::consts::{MAX_FRAGMENTS_IN_MESSAGE, MAX_FRAGMENT_MESSAGE_SIZE};
use crate::fragment::{build_data_from_fragments, chunk, fragment_count, ids_cover};
use crate::fragment::{lemma_chunks_concat, lemma_distinct_ids_fill_range, pieces_in_order};
use crate::fragment::{position_of, split, views, Fragment, FragmentView};
use crate::misc::AsBytes;
use crate::trusted::{all_equal_frag_total, map_insert, map_len, map_remove};

verus! {

/// The fragments of one message, produced one by one.
///
/// The generator borrows the message and remembers how far it has come, so
/// that a copy of it starts over from the same place without a second
/// allocation.
pub struct FragmentGenerator<'a> {
    seq_id: u32,
    frag_total: u8,
    next_frag: u8,
    data: &'a [u8],
}

impl<'a> View for FragmentGenerator<'a> {
    type V = Seq<FragmentView>;

    /// The fragments still to come.
    closed spec fn view(&self) -> Seq<FragmentView> {
        split(self.data@, self.seq_id).skip(self.next_frag as int)
    }
}

impl<'a> FragmentGenerator<'a> {
    #[verifier::type_invariant]
    spec fn well_formed(self) -> bool {
        &&& self.data@.len() > 0
        &&& fragment_count(self.data@.len()) == self.frag_total + 1
        &&& self.frag_total <= 63
        &&& self.next_frag <= self.frag_total + 1
    }

    /// A generator at the first fragment of `data`. `frag_total` is one
    /// less than the number of fragments that `data` is split into.
    pub fn new(data: &'a [u8], seq_id: u32, frag_total: u8) -> (generator: Self)
        requires
            data@.len() > 0,
            fragment_count(data@.len()) == frag_total + 1,
            frag_total <= 63,
        ensures
            generator@ == split(data@, seq_id),
    {
        proof {
            assert(split(data@, seq_id).skip(0) =~= split(data@, seq_id));
        }
        FragmentGenerator { seq_id, frag_total, data, next_frag: 0 }
    }

    /// The next fragment, if any is left.
    pub fn next(&mut self) -> (r: Option<Fragment<&'a [u8]>>)
        ensures
            old(self)@.len() == 0 ==> r is None && final(self)@ == old(self)@,
            old(self)@.len() > 0 ==> (r matches Some(f) && f@ == old(self)@[0] && final(self)@
                == old(self)@.skip(1)),
    {
        proof {
            use_type_invariant(&*self);
            assert(MAX_FRAGMENT_MESSAGE_SIZE == 1280);
            assert(fragment_count(self.data@.len()) == (self.data@.len() + 1279) / 1280);
        }
        if self.next_frag > self.frag_total {
            return None;
        }
        let start: usize = self.next_frag as usize * MAX_FRAGMENT_MESSAGE_SIZE;
        let end: usize = if self.data.len() - start > MAX_FRAGMENT_MESSAGE_SIZE {
            start + MAX_FRAGMENT_MESSAGE_SIZE
        } else {
            self.data.len()
        };
        let frag = Fragment {
            seq_id: self.seq_id,
            frag_total: self.frag_total,
            frag_id: self.next_frag,
            data: slice_subrange(self.data, start, end),
        };
        proof {
            assert(split(self.data@, self.seq_id).skip(self.next_frag as int).skip(1) =~= split(
                self.data@,
                self.seq_id,
            ).skip(self.next_frag as int + 1));
        }
        self.next_frag += 1;
        Some(frag)
    }
}

impl<'a> Clone for FragmentGenerator<'a> {
    fn clone(&self) -> (other: Self)
        ensures
            other@ == self@,
    {
        proof {
            use_type_invariant(self);
        }
        FragmentGenerator {
            seq_id: self.seq_id,
            next_frag: self.next_frag,
            frag_total: self.frag_total,
            data: self.data,
        }
    }
}

/// The fragment ids below `n`.
pub open spec fn ids_below(n: nat) -> Set<u8> {
    Set::new(|k: u8| (k as nat) < n)
}

/// There are `n` fragment ids below `n`, as long as `n` ids exist at all.
pub proof fn lemma_ids_below_len(n: nat)
    requires
        n <= 256,
    ensures
        ids_below(n).finite(),
        ids_below(n).len() == n,
    decreases n,
{
    if n == 0 {
        assert(ids_below(n) =~= Set::<u8>::empty());
    } else {
        lemma_ids_below_len((n - 1) as nat);
        assert(ids_below(n) =~= ids_below((n - 1) as nat).insert((n - 1) as u8));
    }
}

/// The fragments of one message that have arrived are all of its
/// fragments: their ids are the numbers below their count, and they agree
/// on the fragment total.
pub open spec fn complete(fragments: Map<u8, FragmentView>) -> bool {
    &&& forall|k: u8| fragments.contains_key(k) <==> k < fragments.len()
    &&& forall|k: u8, l: u8|
        fragments.contains_key(k) && fragments.contains_key(l) ==> (#[trigger] fragments[k]).frag_total
            == (#[trigger] fragments[l]).frag_total
}

/// The message that the arrived fragments of one sequence make: their
/// payloads by fragment id, end to end. None if they are not complete.
pub open spec fn assemble(fragments: Map<u8, FragmentView>) -> Option<Seq<u8>> {
    if complete(fragments) {
        Some(Seq::new(fragments.len(), |k: int| fragments[k as u8].data).flatten())
    } else {
        None
    }
}

/// The state of a combiner: for each sequence in flight the fragments that
/// have arrived, by fragment id, and the messages that are ready, oldest
/// first.
pub struct CombinerView {
    pub pending: Map<u32, Map<u8, FragmentView>>,
    pub out: Seq<Seq<u8>>,
}

impl CombinerView {
    /// Every fragment is filed under its own sequence id and fragment id,
    /// and only finitely many are held.
    pub open spec fn wf(self) -> bool {
        &&& self.pending.dom().finite()
        &&& forall|s: u32| #[trigger]
            self.pending.contains_key(s) ==> {
                &&& self.pending[s].dom().finite()
                &&& forall|k: u8| #[trigger]
                    self.pending[s].contains_key(k) ==> self.pending[s][k].frag_id == k
                        && self.pending[s][k].seq_id == s
            }
    }

    /// Nothing in flight, nothing ready.
    pub open spec fn empty() -> CombinerView {
        CombinerView { pending: Map::empty(), out: Seq::empty() }
    }

    /// The fragments of the sequence of `f` once `f` has arrived. A
    /// fragment that arrives again takes the place of the earlier one.
    pub open spec fn with_fragment(self, f: FragmentView) -> Map<u8, FragmentView> {
        if self.pending.contains_key(f.seq_id) {
            self.pending[f.seq_id].insert(f.frag_id, f)
        } else {
            Map::<u8, FragmentView>::empty().insert(f.frag_id, f)
        }
    }

    /// Takes the sequence out of flight. Its message becomes the newest
    /// ready message if the fragments are complete; if not, they are dropped.
    pub open spec fn finalize(self, seq_id: u32) -> CombinerView {
        CombinerView {
            pending: self.pending.remove(seq_id),
            out: match assemble(self.pending[seq_id]) {
                Some(message) => self.out.push(message),
                None => self.out,
            },
        }
    }

    /// The state after the arrival of `f`: `f` is filed, and its sequence
    /// is finalized if it now holds as many fragments as `f` announces.
    pub open spec fn push(self, f: FragmentView) -> CombinerView {
        let arrived = self.with_fragment(f);
        let filed = CombinerView { pending: self.pending.insert(f.seq_id, arrived), out: self.out };
        if arrived.len() == f.frag_total + 1 {
            filed.finalize(f.seq_id)
        } else {
            filed
        }
    }

    /// The state after the arrival of each of `fs`, first to last.
    pub open spec fn pushes(self, fs: Seq<FragmentView>) -> CombinerView
        decreases fs.len(),
    {
        if fs.len() == 0 {
            self
        } else {
            self.pushes(fs.drop_last()).push(fs.last())
        }
    }

    /// The state after the oldest ready message has been taken.
    pub open spec fn without_first_out(self) -> CombinerView {
        CombinerView { pending: self.pending, out: self.out.skip(1) }
    }

    /// The state after all ready messages have been taken.
    pub open spec fn drained(self) -> CombinerView {
        CombinerView { pending: self.pending, out: Seq::empty() }
    }
}

/// The fragments of one sequence as values.
pub open spec fn sequence_view<T: AsBytes>(fragments: Map<u8, Fragment<T>>) -> Map<
    u8,
    FragmentView,
> {
    fragments.map_values(|f: Fragment<T>| f@)
}

/// The messages as byte sequences.
pub open spec fn messages_view(messages: Seq<Box<[u8]>>) -> Seq<Seq<u8>> {
    messages.map_values(|m: Box<[u8]>| m@)
}

/// Reassembly buffer for the messages of one peer.
///
/// Fragments are filed by sequence id and fragment id as they arrive, in
/// any order. A message is ready as soon as its last missing fragment has
/// arrived; ready messages queue up in the order in which they became
/// ready.
#[derive(Debug)]
pub struct FragmentCombiner<T> {
    pending_fragments: FnvHashMap<u32, FnvHashMap<u8, Fragment<T>>>,
    out_messages: VecDeque<Box<[u8]>>,
}

impl<T: AsBytes> View for FragmentCombiner<T> {
    type V = CombinerView;

    closed spec fn view(&self) -> CombinerView {
        CombinerView {
            pending: self.pending_fragments@.map_values(
                |m: FnvHashMap<u8, Fragment<T>>| sequence_view(m@),
            ),
            out: messages_view(self.out_messages@),
        }
    }
}

impl<T: AsBytes> FragmentCombiner<T> {
    /// The invariant of the buffer; see [`CombinerView::wf`].
    pub open spec fn wf(&self) -> bool {
        self@.wf()
    }

    pub fn new() -> (combiner: Self)
        ensures
            combiner.wf(),
            combiner@ == CombinerView::empty(),
    {
        let combiner = FragmentCombiner {
            pending_fragments: FnvHashMap::default(),
            out_messages: VecDeque::new(),
        };
        proof {
            assert(combiner@.pending =~= Map::<u32, Map<u8, FragmentView>>::empty());
            assert(combiner@.out =~= Seq::<Seq<u8>>::empty());
        }
        combiner
    }

    /// Takes the fragments of `seq_id` out of flight and, if they are
    /// complete, queues the message that they make.
    ///
    /// Fails, and drops the fragments, if they are not complete.
    #[verifier::loop_isolation(false)]
    fn transform_message(&mut self, seq_id: u32) -> (r: Result<(), ()>)
        requires
            old(self).wf(),
            old(self)@.pending.contains_key(seq_id),
            exists|k: u8|
                old(self)@.pending[seq_id].contains_key(k) && (#[trigger] old(
                    self,
                )@.pending[seq_id][k]).frag_total + 1 == old(self)@.pending[seq_id].len(),
        ensures
            final(self).wf(),
            final(self)@ == old(self)@.finalize(seq_id),
            r is Ok <==> assemble(old(self)@.pending[seq_id]) is Some,
    {
        let ghost before = self@;
        let ghost arrived = before.pending[seq_id];
        let mut fragments = map_remove(&mut self.pending_fragments, &seq_id).unwrap();
        let ghost stored = fragments@;
        let n = map_len(&fragments);
        proof {
            assert(self@.pending =~= before.pending.remove(seq_id));
            assert(self@.out == before.out);
            assert(sequence_view(stored) == arrived);
            assert(arrived.dom() =~= stored.dom());
            assert(before.pending.contains_key(seq_id));
            assert(n <= 256);
        }
        // The fragments by fragment id. The ids of a complete set are the
        // numbers below their count, so a missing one ends the attempt.
        let mut values: Vec<Fragment<T>> = Vec::new();
        let mut k: usize = 0;
        while k < n
            invariant
                k <= n <= 256,
                n == stored.len(),
                values@.len() == k,
                forall|key: u8|
                    #![trigger fragments@.contains_key(key)]
                    #![trigger stored.contains_key(key)]
                    fragments@.contains_key(key) <==> stored.contains_key(key) && key >= k,
                forall|key: u8| #[trigger]
                    fragments@.contains_key(key) ==> fragments@[key] == stored[key],
                forall|key: u8| key < k ==> #[trigger] stored.contains_key(key),
                forall|j: int| 0 <= j < k ==> #[trigger] values@[j] == stored[j as u8],
            decreases n - k,
        {
            let id = k as u8;
            let ghost left = fragments@;
            match map_remove(&mut fragments, &id) {
                Some(fragment) => {
                    proof {
                        assert(left.contains_key(id));
                        assert(stored.contains_key(id) && fragment == stored[id]);
                    }
                    let ghost gathered = values@;
                    values.push(fragment);
                    proof {
                        assert(values@[k as int] == stored[id]);
                        assert forall|j: int| 0 <= j < k + 1 implies #[trigger] values@[j]
                            == stored[j as u8] by {
                            if j < k {
                                assert(values@[j] == gathered[j]);
                            }
                        }
                    }
                },
                None => {
                    proof {
                        assert(!stored.contains_key(id));
                        assert(!arrived.contains_key(id));
                        assert(!complete(arrived));
                        assert(self@ == before.finalize(seq_id));
                    }
                    return Err(());
                },
            }
            k += 1;
        }
        let ghost vs = views(values@);
        proof {
            lemma_ids_below_len(n as nat);
            assert(ids_below(n as nat).subset_of(arrived.dom())) by {
                assert forall|key: u8| ids_below(n as nat).contains(key) implies arrived.dom().contains(
                    key,
                ) by {
                    assert(stored.contains_key(key));
                }
            }
            lemma_subset_equality(ids_below(n as nat), arrived.dom());
            assert forall|key: u8| arrived.contains_key(key) <==> key < arrived.len() by {
                assert(arrived.dom().contains(key) <==> ids_below(n as nat).contains(key));
            }
            assert forall|j: int| 0 <= j < n implies #[trigger] vs[j] == arrived[j as u8] by {
                assert(values@[j] == stored[j as u8]);
            }
        }
        if !all_equal_frag_total(values.as_slice()) {
            proof {
                let (i, j) = choose|i: int, j: int|
                    0 <= i < values@.len() && 0 <= j < values@.len() && values@[i].frag_total
                        != values@[j].frag_total;
                assert(vs[i] == arrived[i as u8] && vs[j] == arrived[j as u8]);
                assert(arrived.contains_key(i as u8) && arrived.contains_key(j as u8));
                assert(!complete(arrived));
                assert(self@ == before.finalize(seq_id));
            }
            // some fragments disagree on the fragment total
            return Err(());
        }
        proof {
            assert(complete(arrived)) by {
                assert forall|a: u8, b: u8|
                    arrived.contains_key(a) && arrived.contains_key(b) implies (
                #[trigger] arrived[a]).frag_total == (#[trigger] arrived[b]).frag_total by {
                    assert(vs[a as int] == arrived[a] && vs[b as int] == arrived[b]);
                    assert(values@[a as int].frag_total == values@[b as int].frag_total);
                }
            }
            assert forall|j: int| 0 <= j < n implies (#[trigger] vs[j]).frag_id == j by {
                assert(arrived.contains_key(j as u8));
            }
            assert(ids_cover(vs));
            assert forall|j: int| 0 <= j < n implies position_of(vs, j) == j by {
                assert(vs[j].frag_id == j);
                let p = position_of(vs, j);
                assert(0 <= p < vs.len() && vs[p].frag_id == j);
            }
            let witness = choose|w: u8|
                arrived.contains_key(w) && (#[trigger] arrived[w]).frag_total + 1 == arrived.len();
            assert(arrived.contains_key(0u8));
            assert(arrived[0u8].frag_total == arrived[witness].frag_total);
            assert(vs[0] == arrived[0u8]);
            assert(pieces_in_order(vs) =~= Seq::new(
                arrived.len(),
                |j: int| arrived[j as u8].data,
            ));
        }
        let message = build_data_from_fragments(values.as_slice())?;
        self.out_messages.push_back(message);
        proof {
            assert(self@.out =~= before.out.push(message@));
            assert(self@.pending =~= before.pending.remove(seq_id));
        }
        Ok(())
    }

    /// Takes the oldest ready message, if there is one.
    pub fn next_out_message(&mut self) -> (message: Option<Box<[u8]>>)
        requires
            old(self).wf(),
        ensures
            final(self).wf(),
            old(self)@.out.len() == 0 ==> message is None && final(self)@ == old(self)@,
            old(self)@.out.len() > 0 ==> (message matches Some(m) && m@ == old(self)@.out[0]
                && final(self)@ == old(self)@.without_first_out()),
    {
        let message = self.out_messages.pop_front();
        proof {
            if message is Some {
                assert(self@.out =~= old(self)@.out.skip(1));
            }
        }
        message
    }

    /// Takes all ready messages, oldest first, and leaves none behind.
    pub fn out_messages(&mut self) -> (messages: VecDeque<Box<[u8]>>)
        requires
            old(self).wf(),
        ensures
            final(self).wf(),
            messages_view(messages@) == old(self)@.out,
            final(self)@ == old(self)@.drained(),
    {
        let mut messages: VecDeque<Box<[u8]>> = VecDeque::new();
        std::mem::swap(&mut self.out_messages, &mut messages);
        proof {
            assert(self@.out =~= Seq::<Seq<u8>>::empty());
        }
        messages
    }

    /// Files a fragment that has arrived. If it is the last one that its
    /// message was waiting for, the message becomes ready.
    pub fn push(&mut self, fragment: Fragment<T>)
        requires
            old(self).wf(),
        ensures
            final(self).wf(),
            final(self)@ == old(self)@.push(fragment@),
    {
        let seq_id = fragment.seq_id;
        let frag_total = fragment.frag_total;
        let ghost before = self@;
        let ghost f = fragment@;
        let ghost arrived = before.with_fragment(f);

        let mut seq_hash_map = match map_remove(&mut self.pending_fragments, &seq_id) {
            Some(fragments) => fragments,
            None => FnvHashMap::default(),
        };
        // A fragment that is already there is replaced: the sender may
        // repeat a fragment whose acknowledgement came late.
        map_insert(&mut seq_hash_map, fragment.frag_id, fragment);
        proof {
            assert(sequence_view(seq_hash_map@) =~= arrived);
            assert(arrived.dom() =~= seq_hash_map@.dom());
            assert(arrived.dom().finite());
        }
        // With as many fragments as the message has, the message is due.
        let try_transform = map_len(&seq_hash_map) == frag_total as usize + 1;
        map_insert(&mut self.pending_fragments, seq_id, seq_hash_map);
        proof {
            assert(self@.pending =~= before.pending.insert(seq_id, arrived));
            assert(self@.out == before.out);
            assert(self@.wf());
        }
        if try_transform {
            proof {
                assert(self@.pending[seq_id] == arrived);
                assert(arrived.contains_key(f.frag_id));
                assert(self@.pending[seq_id][f.frag_id].frag_total + 1 == arrived.len());
            }
            // A set of fragments that does not make a message is dropped.
            let _r = self.transform_message(seq_id);
        }
    }
}

/// The fragments in the order of their arrival: the `j`-th to arrive is the
/// one that stands at `order[j]`.
pub open spec fn arrivals(fragments: Seq<FragmentView>, order: Seq<int>) -> Seq<FragmentView> {
    Seq::new(order.len(), |j: int| fragments[order[j]])
}

/// What is filed of a message once its first `m` arrivals are in.
pub open spec fn filed(fragments: Seq<FragmentView>, order: Seq<int>, m: int) -> Map<
    u8,
    FragmentView,
> {
    Map::new(
        |k: u8| exists|j: int| 0 <= j < m && #[trigger] order[j] == k,
        |k: u8| fragments[k as int],
    )
}

/// An arrival order under which the message becomes ready with its last
/// arrival and not before: every fragment arrives, some perhaps more than
/// once, and the fragment that arrives last has not arrived earlier.
pub open spec fn completes_at_end(order: Seq<int>, count: nat) -> bool {
    &&& order.len() > 0
    &&& forall|j: int| 0 <= j < order.len() ==> 0 <= #[trigger] order[j] < count
    &&& forall|i: int| 0 <= i < count ==> order.contains(i)
    &&& forall|j: int| 0 <= j < order.len() - 1 ==> #[trigger] order[j] != order.last()
}

proof fn lemma_filed_before_end(data: Seq<u8>, seq_id: u32, order: Seq<int>, m: int)
    requires
        0 < data.len() <= MAX_FRAGMENTS_IN_MESSAGE * MAX_FRAGMENT_MESSAGE_SIZE,
        completes_at_end(order, fragment_count(data.len())),
        0 <= m < order.len(),
    ensures
        filed(split(data, seq_id), order, m).dom().finite(),
        filed(split(data, seq_id), order, m).len() < fragment_count(data.len()),
{
    let n = fragment_count(data.len());
    assert(MAX_FRAGMENT_MESSAGE_SIZE == 1280 && MAX_FRAGMENTS_IN_MESSAGE == 64);
    assert(n == (data.len() + 1279) / 1280);
    let last = order.last() as u8;
    assert(0 <= order[order.len() - 1] < n);
    lemma_ids_below_len(n);
    let rest = ids_below(n).remove(last);
    assert(ids_below(n).contains(last));
    let dom = filed(split(data, seq_id), order, m).dom();
    assert(dom.subset_of(rest)) by {
        assert forall|k: u8| dom.contains(k) implies rest.contains(k) by {
            let j = choose|j: int| 0 <= j < m && #[trigger] order[j] == k;
            assert(0 <= order[j] < n);
            assert(order[j] != order.last());
        }
    }
    lemma_len_subset(dom, rest);
}

proof fn lemma_filed_at_end(data: Seq<u8>, seq_id: u32, order: Seq<int>)
    requires
        0 < data.len() <= MAX_FRAGMENTS_IN_MESSAGE * MAX_FRAGMENT_MESSAGE_SIZE,
        completes_at_end(order, fragment_count(data.len())),
    ensures
        filed(split(data, seq_id), order, order.len() as int).dom() == ids_below(
            fragment_count(data.len()),
        ),
        filed(split(data, seq_id), order, order.len() as int).len() == fragment_count(data.len()),
{
    let n = fragment_count(data.len());
    assert(MAX_FRAGMENT_MESSAGE_SIZE == 1280 && MAX_FRAGMENTS_IN_MESSAGE == 64);
    assert(n == (data.len() + 1279) / 1280);
    lemma_ids_below_len(n);
    let dom = filed(split(data, seq_id), order, order.len() as int).dom();
    assert forall|k: u8| dom.contains(k) <==> ids_below(n).contains(k) by {
        if dom.contains(k) {
            let j = choose|j: int| 0 <= j < order.len() && #[trigger] order[j] == k;
            assert(0 <= order[j] < n);
        }
        if ids_below(n).contains(k) {
            assert(order.contains(k as int));
            let j = choose|j: int| 0 <= j < order.len() && order[j] == k as int;
            assert(order[j] == k);
        }
    }
    assert(dom =~= ids_below(n));
}

proof fn lemma_arrivals_before_end(
    c: CombinerView,
    data: Seq<u8>,
    seq_id: u32,
    order: Seq<int>,
    m: int,
)
    requires
        !c.pending.contains_key(seq_id),
        0 < data.len() <= MAX_FRAGMENTS_IN_MESSAGE * MAX_FRAGMENT_MESSAGE_SIZE,
        completes_at_end(order, fragment_count(data.len())),
        0 <= m < order.len(),
    ensures
        c.pushes(arrivals(split(data, seq_id), order).take(m)) == (if m == 0 {
            c
        } else {
            CombinerView {
                pending: c.pending.insert(seq_id, filed(split(data, seq_id), order, m)),
                out: c.out,
            }
        }),
    decreases m,
{
    let frs = split(data, seq_id);
    let n = fragment_count(data.len());
    let arr = arrivals(frs, order);
    assert(MAX_FRAGMENT_MESSAGE_SIZE == 1280 && MAX_FRAGMENTS_IN_MESSAGE == 64);
    assert(n == (data.len() + 1279) / 1280);
    if m == 0 {
        assert(arr.take(0).len() == 0);
    } else {
        lemma_arrivals_before_end(c, data, seq_id, order, m - 1);
        let before = c.pushes(arr.take(m - 1));
        assert(arr.take(m).drop_last() =~= arr.take(m - 1));
        assert(0 <= order[m - 1] < n);
        let f = frs[order[m - 1]];
        assert(arr.take(m).last() == f);
        let arrived = before.with_fragment(f);
        assert(arrived =~= filed(frs, order, m)) by {
            assert forall|k: u8| arrived.contains_key(k) <==> filed(frs, order, m).contains_key(
                k,
            ) by {
                if arrived.contains_key(k) && k != f.frag_id {
                    let j = choose|j: int| 0 <= j < m - 1 && #[trigger] order[j] == k;
                    assert(order[j] == k);
                }
                if filed(frs, order, m).contains_key(k) && k != f.frag_id {
                    let j = choose|j: int| 0 <= j < m && #[trigger] order[j] == k;
                    assert(j < m - 1);
                }
                if k == f.frag_id {
                    assert(order[m - 1] == k);
                }
            }
        }
        lemma_filed_before_end(data, seq_id, order, m);
        assert(c.pushes(arr.take(m)) == before.push(f));
        assert(before.pending.insert(seq_id, arrived) =~= c.pending.insert(
            seq_id,
            filed(frs, order, m),
        ));
    }
}

/// Duplicates do no harm. Whatever else is in flight, once the fragments
/// of a message have arrived under an order that completes at its end, the
/// message is the newest ready message, nothing else has become ready, and
/// nothing of the message is left in flight.
pub proof fn lemma_reassembly_with_duplicates(
    c: CombinerView,
    data: Seq<u8>,
    seq_id: u32,
    order: Seq<int>,
)
    requires
        !c.pending.contains_key(seq_id),
        0 < data.len() <= MAX_FRAGMENTS_IN_MESSAGE * MAX_FRAGMENT_MESSAGE_SIZE,
        completes_at_end(order, fragment_count(data.len())),
    ensures
        c.pushes(arrivals(split(data, seq_id), order)) == (CombinerView {
            pending: c.pending,
            out: c.out.push(data),
        }),
{
    let frs = split(data, seq_id);
    let n = fragment_count(data.len());
    let arr = arrivals(frs, order);
    let m = order.len() as int;
    assert(MAX_FRAGMENT_MESSAGE_SIZE == 1280 && MAX_FRAGMENTS_IN_MESSAGE == 64);
    assert(n == (data.len() + 1279) / 1280);
    lemma_arrivals_before_end(c, data, seq_id, order, m - 1);
    let before = c.pushes(arr.take(m - 1));
    assert(arr.drop_last() =~= arr.take(m - 1));
    assert(0 <= order[m - 1] < n);
    let f = frs[order[m - 1]];
    assert(arr.last() == f);
    let arrived = before.with_fragment(f);
    assert(arrived =~= filed(frs, order, m)) by {
        assert forall|k: u8| arrived.contains_key(k) <==> filed(frs, order, m).contains_key(
            k,
        ) by {
            if arrived.contains_key(k) && k != f.frag_id {
                let j = choose|j: int| 0 <= j < m - 1 && #[trigger] order[j] == k;
                assert(order[j] == k);
            }
            if filed(frs, order, m).contains_key(k) && k != f.frag_id {
                let j = choose|j: int| 0 <= j < m && #[trigger] order[j] == k;
                assert(j < m - 1);
            }
            if k == f.frag_id {
                assert(order[m - 1] == k);
            }
        }
    }
    lemma_filed_at_end(data, seq_id, order);
    assert(complete(arrived)) by {
        assert forall|k: u8| arrived.contains_key(k) <==> k < arrived.len() by {
            assert(arrived.dom().contains(k) <==> ids_below(n).contains(k));
        }
    }
    assert(Seq::new(arrived.len(), |k: int| arrived[k as u8].data) =~= Seq::new(
        n,
        |k: int| chunk(data, k),
    ));
    lemma_chunks_concat(data, n);
    assert(data.subrange(0, data.len() as int) =~= data);
    assert(assemble(arrived) == Some(data));
    let filed_state = CombinerView { pending: before.pending.insert(seq_id, arrived), out: before.out };
    assert(c.pushes(arr) == before.push(f));
    assert(before.push(f) == filed_state.finalize(seq_id));
    assert(filed_state.pending.remove(seq_id) =~= c.pending);
}

/// Reassembly gives the message back. When the fragments of a message
/// arrive at a combiner that holds nothing, each of them once and in
/// whatever order, the message is the one ready message, and nothing is
/// left in flight.
pub proof fn lemma_reassembly_roundtrip(data: Seq<u8>, seq_id: u32, order: Seq<int>)
    requires
        0 < data.len() <= MAX_FRAGMENTS_IN_MESSAGE * MAX_FRAGMENT_MESSAGE_SIZE,
        order.len() == fragment_count(data.len()),
        order.no_duplicates(),
        forall|j: int| 0 <= j < order.len() ==> 0 <= #[trigger] order[j] < order.len(),
    ensures
        CombinerView::empty().pushes(arrivals(split(data, seq_id), order)) == (CombinerView {
            pending: Map::empty(),
            out: seq![data],
        }),
{
    assert(MAX_FRAGMENT_MESSAGE_SIZE == 1280 && MAX_FRAGMENTS_IN_MESSAGE == 64);
    assert(fragment_count(data.len()) == (data.len() + 1279) / 1280);
    lemma_distinct_ids_fill_range(order);
    lemma_reassembly_with_duplicates(CombinerView::empty(), data, seq_id, order);
    assert(Seq::<Seq<u8>>::empty().push(data) =~= seq![data]);
}

/// A fragment total that is not shared spoils the message. If the arrival
/// of `f` brings its sequence to the announced count while a fragment of
/// the sequence announces another total, no message becomes ready and the
/// sequence is out of flight.
pub proof fn lemma_mismatched_total_yields_nothing(c: CombinerView, f: FragmentView, k: u8)
    requires
        c.with_fragment(f).len() == f.frag_total + 1,
        c.with_fragment(f).contains_key(k),
        c.with_fragment(f)[k].frag_total != f.frag_total,
    ensures
        c.push(f).out == c.out,
        !c.push(f).pending.contains_key(f.seq_id),
{
    let arrived = c.with_fragment(f);
    assert(arrived.contains_key(f.frag_id) && arrived[f.frag_id] == f);
    assert(!complete(arrived));
}

} // verus!
