//! The network simulator itself: per-replica inboxes of pending envelopes,
//! a log of all broadcast messages, and the randomized broadcast / receive
//! operations with their ordering guarantees.

use vstd::prelude::*;
use crate::ReplicaId;
use crate::rng::RandomSource;

verus! {

/// A message tagged with the replica that broadcast it. No envelope is ever
/// addressed to its own sender.
pub struct Envelope<T> {
    pub message: T,
    pub sender: ReplicaId,
}

/// The messages in `s` that replica `sender` broadcast, in inbox order.
pub open spec fn from_sender<T>(s: Seq<Envelope<T>>, sender: ReplicaId) -> Seq<T>
    decreases s.len(),
{
    if s.len() == 0 {
        Seq::empty()
    } else if s[0].sender == sender {
        seq![s[0].message] + from_sender(s.drop_first(), sender)
    } else {
        from_sender(s.drop_first(), sender)
    }
}

/// The envelopes in `s` from senders other than `sender`, in inbox order.
pub open spec fn from_others<T>(s: Seq<Envelope<T>>, sender: ReplicaId) -> Seq<Envelope<T>>
    decreases s.len(),
{
    if s.len() == 0 {
        Seq::empty()
    } else if s[0].sender == sender {
        from_others(s.drop_first(), sender)
    } else {
        seq![s[0]] + from_others(s.drop_first(), sender)
    }
}

/// Per-message duplication factors for one recipient: each message of a
/// batch of `n` is delivered 1 to 3 times.
pub open spec fn valid_counts(counts: Seq<int>, n: int) -> bool {
    &&& counts.len() == n
    &&& forall|j: int| 0 <= j < n ==> 1 <= #[trigger] counts[j] <= 3
}

/// The batch `ms` with message `j` repeated `counts[j]` times, in order.
pub open spec fn expand<T>(ms: Seq<T>, counts: Seq<int>) -> Seq<T>
    decreases ms.len(),
{
    if ms.len() == 0 {
        Seq::empty()
    } else {
        Seq::new(counts[0] as nat, |i: int| ms[0]) + expand(ms.drop_first(), counts.drop_first())
    }
}

/// How one broadcast of `ms` by `sender` transforms a recipient's inbox:
/// envelopes from other senders are untouched and keep their order, while
/// the subsequence from `sender` is extended, in batch order, by 1 to 3
/// copies of each message of the batch.
pub open spec fn delivered<T>(
    pre: Seq<Envelope<T>>,
    post: Seq<Envelope<T>>,
    sender: ReplicaId,
    ms: Seq<T>,
) -> bool {
    &&& from_others(post, sender) == from_others(pre, sender)
    &&& exists|counts: Seq<int>|
        valid_counts(counts, ms.len() as int) && from_sender(post, sender) == from_sender(
            pre,
            sender,
        ) + expand(ms, counts)
}

/// `from_sender` distributes over concatenation.
proof fn lemma_from_sender_add<T>(a: Seq<Envelope<T>>, b: Seq<Envelope<T>>, sender: ReplicaId)
    ensures
        from_sender(a + b, sender) == from_sender(a, sender) + from_sender(b, sender),
    decreases a.len(),
{
    if a.len() == 0 {
        assert(a + b =~= b);
        assert(from_sender(a, sender) + from_sender(b, sender) =~= from_sender(b, sender));
    } else {
        assert((a + b).drop_first() =~= a.drop_first() + b);
        lemma_from_sender_add(a.drop_first(), b, sender);
        assert((a + b)[0] == a[0]);
        if a[0].sender == sender {
            assert(seq![a[0].message] + (from_sender(a.drop_first(), sender) + from_sender(
                b,
                sender,
            )) =~= (seq![a[0].message] + from_sender(a.drop_first(), sender)) + from_sender(
                b,
                sender,
            ));
        }
    }
}

/// `from_others` distributes over concatenation.
proof fn lemma_from_others_add<T>(a: Seq<Envelope<T>>, b: Seq<Envelope<T>>, sender: ReplicaId)
    ensures
        from_others(a + b, sender) == from_others(a, sender) + from_others(b, sender),
    decreases a.len(),
{
    if a.len() == 0 {
        assert(a + b =~= b);
        assert(from_others(a, sender) + from_others(b, sender) =~= from_others(b, sender));
    } else {
        assert((a + b).drop_first() =~= a.drop_first() + b);
        lemma_from_others_add(a.drop_first(), b, sender);
        assert((a + b)[0] == a[0]);
        if a[0].sender != sender {
            assert(seq![a[0]] + (from_others(a.drop_first(), sender) + from_others(b, sender))
                =~= (seq![a[0]] + from_others(a.drop_first(), sender)) + from_others(b, sender));
        }
    }
}

/// If every envelope from `sender` in `s` carries message `m`, then
/// `from_sender(s, sender)` is all `m`.
proof fn lemma_from_sender_constant<T>(s: Seq<Envelope<T>>, sender: ReplicaId, m: T)
    requires
        forall|q: int| 0 <= q < s.len() && s[q].sender == sender ==> s[q].message == m,
    ensures
        forall|i: int|
            0 <= i < from_sender(s, sender).len() ==> from_sender(s, sender)[i] == m,
    decreases s.len(),
{
    if s.len() > 0 {
        let rest = s.drop_first();
        assert(forall|q: int| 0 <= q < rest.len() ==> rest[q] == s[q + 1]);
        lemma_from_sender_constant(rest, sender, m);
        assert forall|i: int|
            0 <= i < from_sender(s, sender).len() implies from_sender(s, sender)[i] == m by {
            if s[0].sender == sender {
                assert(s[0].message == m);
                if i > 0 {
                    assert(from_sender(s, sender)[i] == from_sender(rest, sender)[i - 1]);
                }
            } else {
                assert(from_sender(s, sender)[i] == from_sender(rest, sender)[i]);
            }
        }
    }
}

/// What a one-envelope sequence contributes to each subsequence.
proof fn lemma_from_single<T>(e: Envelope<T>, sender: ReplicaId)
    requires
        e.sender == sender,
    ensures
        from_sender(seq![e], sender) == seq![e.message],
        from_others(seq![e], sender) == Seq::<Envelope<T>>::empty(),
{
    let s = seq![e];
    assert(s.len() == 1);
    assert(s[0] == e);
    assert(s.drop_first() =~= Seq::<Envelope<T>>::empty());
    assert(from_sender(Seq::<Envelope<T>>::empty(), sender) == Seq::<T>::empty());
    assert(from_sender(s, sender) == seq![e.message] + Seq::<T>::empty());
    assert(seq![e.message] + Seq::<T>::empty() =~= seq![e.message]);
    assert(from_others(s, sender) == from_others(Seq::<Envelope<T>>::empty(), sender));
}

/// Inserting one envelope from `sender` at or past every pending envelope
/// from `sender` that does not carry message `m` appends `m` to the
/// sender's subsequence and leaves the others' subsequence alone.
proof fn lemma_deliver_insert<T>(s: Seq<Envelope<T>>, i: int, e: Envelope<T>, min0: int)
    requires
        0 <= min0 <= i <= s.len(),
        forall|q: int|
            min0 <= q < s.len() && s[q].sender == e.sender ==> s[q].message == e.message,
    ensures
        from_sender(s.insert(i, e), e.sender) == from_sender(s, e.sender).push(e.message),
        from_others(s.insert(i, e), e.sender) == from_others(s, e.sender),
{
    let sender = e.sender;
    let m = e.message;
    let a = s.take(i);
    let b = s.skip(i);
    let mid = seq![e];
    assert(s.insert(i, e) =~= (a + mid) + b);
    assert(s =~= a + b);
    lemma_from_sender_add(a + mid, b, sender);
    lemma_from_sender_add(a, mid, sender);
    lemma_from_sender_add(a, b, sender);
    lemma_from_others_add(a + mid, b, sender);
    lemma_from_others_add(a, mid, sender);
    lemma_from_others_add(a, b, sender);
    lemma_from_single(e, sender);
    assert(from_sender(mid, sender) == seq![m]);
    assert(from_others(mid, sender) == Seq::<Envelope<T>>::empty());
    let fa = from_sender(a, sender);
    let fb = from_sender(b, sender);
    assert(forall|q: int| 0 <= q < b.len() && b[q].sender == sender ==> b[q].message == m);
    lemma_from_sender_constant(b, sender, m);
    assert(from_sender(s.insert(i, e), sender) =~= (fa + fb).push(m)) by {
        assert(from_sender(s.insert(i, e), sender) == (fa + seq![m]) + fb);
        assert(((fa + seq![m]) + fb).len() == (fa + fb).push(m).len());
        assert forall|p: int| 0 <= p < ((fa + seq![m]) + fb).len() implies ((fa + seq![m]) + fb)[p]
            == (fa + fb).push(m)[p] by {
            if p < fa.len() {
            } else if p == fa.len() {
                if fb.len() > 0 {
                    assert(fb[0] == m);
                }
            } else {
                assert(((fa + seq![m]) + fb)[p] == fb[p - fa.len() - 1]);
                assert(fb[p - fa.len() - 1] == m);
                if p < fa.len() + fb.len() {
                    assert((fa + fb).push(m)[p] == fb[p - fa.len()]);
                    assert(fb[p - fa.len()] == m);
                }
            }
        }
    }
    assert(from_others(s.insert(i, e), sender) =~= from_others(s, sender));
}

/// Every envelope is from the sender or from another: the two subsequences
/// partition an inbox.
proof fn lemma_partition_len<T>(s: Seq<Envelope<T>>, sender: ReplicaId)
    ensures
        from_sender(s, sender).len() + from_others(s, sender).len() == s.len(),
    decreases s.len(),
{
    if s.len() > 0 {
        lemma_partition_len(s.drop_first(), sender);
    }
}

/// Expanding one more message appends its copies.
proof fn lemma_expand_push<T>(ms: Seq<T>, counts: Seq<int>, m: T, k: int)
    requires
        counts.len() == ms.len(),
    ensures
        expand(ms.push(m), counts.push(k)) == expand(ms, counts) + Seq::new(
            k as nat,
            |i: int| m,
        ),
    decreases ms.len(),
{
    let ms2 = ms.push(m);
    let counts2 = counts.push(k);
    assert(ms2[0 as int] == if ms.len() == 0 { m } else { ms[0] });
    if ms.len() == 0 {
        assert(ms2.drop_first() =~= Seq::<T>::empty());
        assert(counts2.drop_first() =~= Seq::<int>::empty());
        assert(expand(Seq::<T>::empty(), Seq::<int>::empty()) == Seq::<T>::empty());
        assert(expand(ms2, counts2) == Seq::new(counts2[0] as nat, |i: int| ms2[0])
            + expand(ms2.drop_first(), counts2.drop_first()));
        assert(expand(ms2, counts2) =~= Seq::new(k as nat, |i: int| m));
        assert(expand(ms, counts) + Seq::new(k as nat, |i: int| m) =~= Seq::new(
            k as nat,
            |i: int| m,
        ));
    } else {
        assert(ms2.drop_first() =~= ms.drop_first().push(m));
        assert(counts2.drop_first() =~= counts.drop_first().push(k));
        lemma_expand_push(ms.drop_first(), counts.drop_first(), m, k);
        assert(expand(ms2, counts2) =~= expand(ms, counts) + Seq::new(k as nat, |i: int| m));
    }
}

/// With 1 to 3 copies per message, the expansion of `n` messages holds
/// between `n` and `3 n` entries.
proof fn lemma_expand_len<T>(ms: Seq<T>, counts: Seq<int>)
    requires
        valid_counts(counts, ms.len() as int),
    ensures
        ms.len() <= expand(ms, counts).len() <= 3 * ms.len(),
    decreases ms.len(),
{
    if ms.len() > 0 {
        assert(1 <= counts[0] <= 3);
        assert(valid_counts(counts.drop_first(), ms.drop_first().len() as int)) by {
            assert(forall|j: int|
                0 <= j < counts.drop_first().len() ==> counts.drop_first()[j] == counts[j + 1]);
        }
        lemma_expand_len(ms.drop_first(), counts.drop_first());
    }
}

/// One past the position of the last pending envelope from `sender`, or 0
/// if none is pending: the lowest index at which a new envelope from
/// `sender` may be inserted without overtaking an earlier one.
fn last_from_sender<T: Copy>(inbox: &Vec<Envelope<T>>, sender: ReplicaId) -> (min_index: usize)
    ensures
        min_index <= inbox@.len(),
        forall|q: int| min_index <= q < inbox@.len() ==> inbox@[q].sender != sender,
        min_index > 0 ==> inbox@[min_index - 1].sender == sender,
{
    let mut i = inbox.len();
    while i > 0
        invariant
            i <= inbox@.len(),
            forall|q: int| i <= q < inbox@.len() ==> inbox@[q].sender != sender,
        decreases i,
    {
        if inbox[i - 1].sender == sender {
            return i;
        }
        i = i - 1;
    }
    0
}

/// Every inbox entry shows up in one of the two subsequences: an envelope
/// from `sender` contributes its message to `from_sender`, and any other
/// envelope appears in `from_others`. With the `delivered` relation of
/// `broadcast` this accounts for every envelope a recipient ever holds.
pub proof fn lemma_partition_member<T>(s: Seq<Envelope<T>>, sender: ReplicaId, q: int)
    requires
        0 <= q < s.len(),
    ensures
        s[q].sender == sender ==> from_sender(s, sender).contains(s[q].message),
        s[q].sender != sender ==> from_others(s, sender).contains(s[q]),
    decreases s.len(),
{
    let rest = s.drop_first();
    if q == 0 {
        if s[0].sender == sender {
            assert(from_sender(s, sender)[0] == s[0].message);
        } else {
            assert(from_others(s, sender)[0] == s[0]);
        }
    } else {
        assert(rest[q - 1] == s[q]);
        lemma_partition_member(rest, sender, q - 1);
        if s[q].sender == sender {
            let i = choose|i: int|
                0 <= i < from_sender(rest, sender).len() && from_sender(rest, sender)[i] == s[q].message;
            if s[0].sender == sender {
                assert(from_sender(s, sender)[i + 1] == s[q].message);
            } else {
                assert(from_sender(s, sender)[i] == s[q].message);
            }
        } else {
            let i = choose|i: int|
                0 <= i < from_others(rest, sender).len() && from_others(rest, sender)[i] == s[q];
            if s[0].sender == sender {
                assert(from_others(s, sender)[i] == s[q]);
            } else {
                assert(from_others(s, sender)[i + 1] == s[q]);
            }
        }
    }
}

/// All copies of the first `j` messages of a batch land, in order, before
/// any copy of the later ones: the expansion splits at every message
/// boundary. Together with the `delivered` relation of `broadcast` this
/// pins sender order within one batch.
pub proof fn lemma_expand_split<T>(ms: Seq<T>, counts: Seq<int>, j: int)
    requires
        valid_counts(counts, ms.len() as int),
        0 <= j <= ms.len(),
    ensures
        expand(ms, counts) == expand(ms.take(j), counts.take(j)) + expand(
            ms.skip(j),
            counts.skip(j),
        ),
    decreases j,
{
    if j == 0 {
        assert(ms.take(0) =~= Seq::<T>::empty());
        assert(counts.take(0) =~= Seq::<int>::empty());
        assert(ms.skip(0) =~= ms);
        assert(counts.skip(0) =~= counts);
        assert(expand(Seq::<T>::empty(), Seq::<int>::empty()) == Seq::<T>::empty());
        assert(Seq::<T>::empty() + expand(ms, counts) =~= expand(ms, counts));
    } else {
        let msr = ms.drop_first();
        let countsr = counts.drop_first();
        assert(valid_counts(countsr, msr.len() as int)) by {
            assert(forall|q: int| 0 <= q < countsr.len() ==> countsr[q] == counts[q + 1]);
        }
        lemma_expand_split(msr, countsr, j - 1);
        assert(ms.take(j).drop_first() =~= msr.take(j - 1));
        assert(counts.take(j).drop_first() =~= countsr.take(j - 1));
        assert(ms.take(j)[0] == ms[0] && counts.take(j)[0] == counts[0]);
        assert(ms.skip(j) =~= msr.skip(j - 1));
        assert(counts.skip(j) =~= countsr.skip(j - 1));
        assert(expand(ms.take(j), counts.take(j)) == Seq::new(
            counts[0] as nat,
            |i: int| ms[0],
        ) + expand(msr.take(j - 1), countsr.take(j - 1)));
        assert(expand(ms, counts) =~= expand(ms.take(j), counts.take(j)) + expand(
            ms.skip(j),
            counts.skip(j),
        ));
    }
}

/// Sender-order preservation across broadcasts: a broadcast only appends
/// to the subsequence of a recipient's inbox that came from the sender, so
/// every pending copy of an earlier message keeps its place ahead of every
/// copy inserted for a later one.
pub proof fn lemma_sender_order_preserved<T>(
    pre: Seq<Envelope<T>>,
    post: Seq<Envelope<T>>,
    sender: ReplicaId,
    ms: Seq<T>,
)
    requires
        delivered(pre, post, sender, ms),
    ensures
        from_sender(post, sender).len() >= from_sender(pre, sender).len(),
        from_sender(post, sender).take(from_sender(pre, sender).len() as int) == from_sender(
            pre,
            sender,
        ),
{
    let counts = choose|counts: Seq<int>|
        valid_counts(counts, ms.len() as int) && from_sender(post, sender) == from_sender(
            pre,
            sender,
        ) + expand(ms, counts);
    assert(from_sender(post, sender).take(from_sender(pre, sender).len() as int) =~= from_sender(
        pre,
        sender,
    ));
}

/// Duplication bound: one broadcast grows a recipient's inbox by at least
/// one and at most three envelopes per message of the batch, all of them
/// from the sender.
pub proof fn lemma_duplication_bound<T>(
    pre: Seq<Envelope<T>>,
    post: Seq<Envelope<T>>,
    sender: ReplicaId,
    ms: Seq<T>,
)
    requires
        delivered(pre, post, sender, ms),
    ensures
        pre.len() + ms.len() <= post.len() <= pre.len() + 3 * ms.len(),
{
    let counts = choose|counts: Seq<int>|
        valid_counts(counts, ms.len() as int) && from_sender(post, sender) == from_sender(
            pre,
            sender,
        ) + expand(ms, counts);
    lemma_expand_len(ms, counts);
    lemma_partition_len(pre, sender);
    lemma_partition_len(post, sender);
}

/// An unreliable in-process "network" between registered replicas.
///
/// Internally the inboxes sit in a vector ordered by strictly increasing
/// replica id, so a broadcast visits recipients in a stable order and a run
/// is determined by the random seed alone.
pub struct Network<T: Copy, R: RandomSource> {
    ids: Vec<ReplicaId>,
    inboxes: Vec<Vec<Envelope<T>>>,
    all_messages: Vec<T>,
    rng: R,
}

impl<T: Copy, R: RandomSource> Network<T, R> {
    /// The registered replica ids, in increasing order.
    pub closed spec fn peers(self) -> Seq<ReplicaId> {
        self.ids@
    }

    /// Whether `id` has been registered with `add_peer`.
    pub open spec fn is_registered(self, id: ReplicaId) -> bool {
        self.peers().contains(id)
    }

    spec fn idx_of(self, id: ReplicaId) -> int {
        self.ids@.index_of(id)
    }

    /// The pending envelopes of replica `id`, oldest first.
    pub closed spec fn inbox(self, id: ReplicaId) -> Seq<Envelope<T>> {
        self.inboxes@[self.idx_of(id)]@
    }

    /// Every message ever broadcast, in broadcast order, sender dropped.
    pub closed spec fn history(self) -> Seq<T> {
        self.all_messages@
    }

    /// Well-formedness: one inbox per id, ids strictly sorted (hence
    /// unique), and no inbox holds an envelope from its own replica.
    pub closed spec fn wf(self) -> bool {
        &&& self.ids@.len() == self.inboxes@.len()
        &&& forall|i: int, j: int|
            #![trigger self.ids@[i], self.ids@[j]]
            0 <= i < j < self.ids@.len() ==> self.ids@[i] < self.ids@[j]
        &&& forall|p: int, q: int|
            #![trigger self.inboxes@[p]@[q]]
            0 <= p < self.inboxes@.len() && 0 <= q < self.inboxes@[p]@.len()
                ==> self.inboxes@[p]@[q].sender != self.ids@[p]
    }

    /// In a well-formed simulator the position of a registered id is the
    /// unique index holding it, and `inbox` reads that slot.
    proof fn lemma_idx(self, id: ReplicaId)
        requires
            self.wf(),
            self.is_registered(id),
        ensures
            0 <= self.idx_of(id) < self.ids@.len(),
            self.ids@[self.idx_of(id)] == id,
            forall|j: int| 0 <= j < self.ids@.len() && self.ids@[j] == id ==> j == self.idx_of(id),
            self.inbox(id) == self.inboxes@[self.idx_of(id)]@,
    {
        let k = choose|k: int| 0 <= k < self.ids@.len() && self.ids@[k] == id;
        assert(self.ids@[k] == id);
        assert(0 <= self.idx_of(id) < self.ids@.len() && self.ids@[self.idx_of(id)] == id);
        assert forall|j: int|
            0 <= j < self.ids@.len() && self.ids@[j] == id implies j == self.idx_of(id) by {
            let i = self.idx_of(id);
            if j < i {
                assert(self.ids@[j] < self.ids@[i]);
            } else if i < j {
                assert(self.ids@[i] < self.ids@[j]);
            }
        }
    }

    /// Constructs a simulator with no registered replicas, an empty history,
    /// and the given randomness source.
    pub fn new(rng: R) -> (net: Network<T, R>)
        ensures
            net.wf(),
            net.peers() == Seq::<ReplicaId>::empty(),
            net.history() == Seq::<T>::empty(),
    {
        Network { ids: Vec::new(), inboxes: Vec::new(), all_messages: Vec::new(), rng }
    }

    /// Registers `id` with an empty inbox. Registering an id twice is a
    /// programmer error, excluded by the precondition.
    pub fn add_peer(&mut self, id: ReplicaId)
        requires
            old(self).wf(),
            !old(self).is_registered(id),
        ensures
            final(self).wf(),
            final(self).history() == old(self).history(),
            forall|r: ReplicaId|
                final(self).is_registered(r) <==> (old(self).is_registered(r) || r == id),
            final(self).inbox(id) == Seq::<Envelope<T>>::empty(),
            forall|r: ReplicaId|
                old(self).is_registered(r) ==> final(self).inbox(r) == old(self).inbox(r),
    {
        let ghost pre = *self;
        let mut pos: usize = 0;
        while pos < self.ids.len() && self.ids[pos] < id
            invariant
                *self == pre,
                pre.wf(),
                pos <= self.ids@.len(),
                forall|j: int| 0 <= j < pos ==> self.ids@[j] < id,
            decreases self.ids@.len() - pos,
        {
            pos = pos + 1;
        }
        assert(forall|j: int| 0 <= j < self.ids@.len() ==> self.ids@[j] != id);
        assert(pos < self.ids@.len() ==> self.ids@[pos as int] > id);
        let ghost old_ids = self.ids@;
        let ghost old_inboxes = self.inboxes@;
        self.ids.insert(pos, id);
        self.inboxes.insert(pos, Vec::new());
        proof {
            old_ids.insert_ensures(pos as int, id);
            old_inboxes.insert_ensures(pos as int, self.inboxes@[pos as int]);
            let p = pos as int;
            assert(self.ids@.len() == old_ids.len() + 1);
            assert(self.wf()) by {
                assert forall|i: int, j: int|
                    0 <= i < j < self.ids@.len() implies #[trigger] self.ids@[i]
                    < #[trigger] self.ids@[j] by {
                    if j < p {
                    } else if i < p && j == p {
                        assert(self.ids@[i] == old_ids[i]);
                    } else if i < p && j > p {
                        assert(self.ids@[j] == old_ids[j - 1]);
                        if j - 1 > i {
                            assert(old_ids[i] < old_ids[j - 1]);
                        }
                    } else if i == p {
                        assert(self.ids@[j] == old_ids[j - 1]);
                    } else {
                        assert(self.ids@[i] == old_ids[i - 1]);
                        assert(self.ids@[j] == old_ids[j - 1]);
                    }
                }
                assert forall|q: int, w: int|
                    0 <= q < self.inboxes@.len() && 0 <= w < self.inboxes@[q]@.len()
                    implies #[trigger] self.inboxes@[q]@[w].sender != self.ids@[q] by {
                    if q < p {
                        assert(self.inboxes@[q] == old_inboxes[q]);
                        assert(self.ids@[q] == old_ids[q]);
                    } else if q == p {
                        assert(self.inboxes@[q]@.len() == 0);
                    } else {
                        assert(self.inboxes@[q] == old_inboxes[q - 1]);
                        assert(self.ids@[q] == old_ids[q - 1]);
                    }
                }
            }
            assert forall|r: ReplicaId|
                self.is_registered(r) <==> (pre.is_registered(r) || r == id) by {
                if pre.is_registered(r) {
                    let j = choose|j: int| 0 <= j < old_ids.len() && old_ids[j] == r;
                    if j < p {
                        assert(self.ids@[j] == r);
                    } else {
                        assert(self.ids@[j + 1] == r);
                    }
                    assert(self.is_registered(r));
                }
                if r == id {
                    assert(self.ids@[p] == r);
                    assert(self.is_registered(r));
                }
                if self.is_registered(r) {
                    let j = choose|j: int| 0 <= j < self.ids@.len() && self.ids@[j] == r;
                    if j < p {
                        assert(old_ids[j] == r);
                        assert(pre.is_registered(r));
                    } else if j == p {
                        assert(r == id);
                    } else {
                        assert(old_ids[j - 1] == r);
                        assert(pre.is_registered(r));
                    }
                }
            }
            self.lemma_idx(id);
            assert forall|j: int| 0 <= j < self.ids@.len() && self.ids@[j] == id implies j == p by {
                if j < p {
                    assert(self.ids@[j] == old_ids[j]);
                } else if j > p {
                    assert(self.ids@[j] == old_ids[j - 1]);
                }
            }
            assert(self.inbox(id) =~= Seq::<Envelope<T>>::empty());
            assert forall|r: ReplicaId| pre.is_registered(r) implies self.inbox(r) == pre.inbox(
                r,
            ) by {
                pre.lemma_idx(r);
                self.lemma_idx(r);
                let j = pre.idx_of(r);
                if j < p {
                    assert(self.ids@[j] == r);
                    assert(self.idx_of(r) == j);
                    assert(self.inboxes@[j] == old_inboxes[j]);
                } else {
                    assert(self.ids@[j + 1] == r);
                    assert(self.idx_of(r) == j + 1);
                    assert(self.inboxes@[j + 1] == old_inboxes[j]);
                }
            }
        }
    }

    /// True exactly when no registered replica has anything pending.
    pub fn is_idle(&self) -> (idle: bool)
        requires
            self.wf(),
        ensures
            idle == (forall|id: ReplicaId|
                self.is_registered(id) ==> self.inbox(id).len() == 0),
    {
        let mut p: usize = 0;
        while p < self.inboxes.len()
            invariant
                self.wf(),
                p <= self.inboxes@.len(),
                forall|q: int| 0 <= q < p ==> self.inboxes@[q]@.len() == 0,
            decreases self.inboxes@.len() - p,
        {
            if self.inboxes[p].len() > 0 {
                proof {
                    let id = self.ids@[p as int];
                    assert(self.ids@.contains(id)) by {
                        assert(self.ids@[p as int] == id);
                    }
                    self.lemma_idx(id);
                    assert(self.idx_of(id) == p as int);
                    assert(!(forall|r: ReplicaId|
                        self.is_registered(r) ==> self.inbox(r).len() == 0)) by {
                        assert(self.is_registered(id) && self.inbox(id).len() != 0);
                    }
                }
                return false;
            }
            p = p + 1;
        }
        proof {
            assert forall|id: ReplicaId| self.is_registered(id) implies self.inbox(id).len()
                == 0 by {
                self.lemma_idx(id);
            }
        }
        true
    }

    /// The slot holding `id`'s inbox; only registered ids have one.
    fn position_of(&self, id: ReplicaId) -> (pos: usize)
        requires
            self.wf(),
            self.is_registered(id),
        ensures
            pos < self.ids@.len(),
            self.ids@[pos as int] == id,
            pos as int == self.idx_of(id),
            self.inbox(id) == self.inboxes@[pos as int]@,
    {
        let mut p: usize = 0;
        while p < self.ids.len()
            invariant
                self.wf(),
                self.is_registered(id),
                p <= self.ids@.len(),
                forall|q: int| 0 <= q < p ==> self.ids@[q] != id,
            decreases self.ids@.len() - p,
        {
            if self.ids[p] == id {
                proof {
                    self.lemma_idx(id);
                }
                return p;
            }
            p = p + 1;
        }
        proof {
            self.lemma_idx(id);
            assert(false);
        }
        0
    }

    /// True iff `receiver`'s inbox is non-empty. Asking about an
    /// unregistered replica is a programmer error, excluded by the
    /// precondition.
    pub fn has_unreceived(&self, receiver: ReplicaId) -> (pending: bool)
        requires
            self.wf(),
            self.is_registered(receiver),
        ensures
            pending == (self.inbox(receiver).len() > 0),
    {
        let pos = self.position_of(receiver);
        self.inboxes[pos].len() > 0
    }

    /// Drains a random-length prefix of `receiver`'s inbox and returns its
    /// messages, sender tags stripped, in the order they were pending. The
    /// envelopes past the drained prefix stay, in their original order.
    pub fn receive(&mut self, receiver: ReplicaId) -> (received: Vec<T>)
        requires
            old(self).wf(),
            old(self).is_registered(receiver),
        ensures
            final(self).wf(),
            final(self).peers() == old(self).peers(),
            final(self).history() == old(self).history(),
            received@.len() <= old(self).inbox(receiver).len(),
            received@ == old(self).inbox(receiver).take(received@.len() as int).map_values(
                |e: Envelope<T>| e.message,
            ),
            final(self).inbox(receiver) == old(self).inbox(receiver).skip(
                received@.len() as int,
            ),
            forall|r: ReplicaId|
                old(self).is_registered(r) && r != receiver ==> final(self).inbox(r) == old(
                    self,
                ).inbox(r),
    {
        let ghost pre = *self;
        let pos = self.position_of(receiver);
        let ghost old_inboxes = self.inboxes@;
        let mut inbox = self.inboxes.remove(pos);
        let ghost orig = inbox@;
        let len = inbox.len();
        let count = self.rng.gen_index(0, len);
        let mut received: Vec<T> = Vec::new();
        let mut c: usize = 0;
        while c < count
            invariant
                c <= count,
                count <= orig.len(),
                inbox@ == orig.skip(c as int),
                received@ == orig.take(c as int).map_values(|e: Envelope<T>| e.message),
            decreases count - c,
        {
            let e = inbox.remove(0);
            received.push(e.message);
            proof {
                assert(inbox@ =~= orig.skip(c + 1));
                assert(orig.take(c + 1) =~= orig.take(c as int).push(orig[c as int]));
                assert(received@ =~= orig.take(c + 1).map_values(|e: Envelope<T>| e.message));
            }
            c = c + 1;
        }
        self.inboxes.insert(pos, inbox);
        proof {
            let p = pos as int;
            old_inboxes.remove_ensures(p);
            assert(self.inboxes@ =~= old_inboxes.update(p, self.inboxes@[p]));
            assert(self.inboxes@[p]@ == orig.skip(count as int));
            assert(received@.len() == count) by {
                assert(orig.take(count as int).len() == count);
            }
            assert(self.ids@ == pre.ids@);
            assert(self.wf()) by {
                assert forall|q: int, w: int|
                    0 <= q < self.inboxes@.len() && 0 <= w < self.inboxes@[q]@.len()
                    implies #[trigger] self.inboxes@[q]@[w].sender != self.ids@[q] by {
                    if q == p {
                        assert(self.inboxes@[q]@[w] == orig[count + w]);
                        assert(pre.inboxes@[q]@[w + count] == orig[count + w]);
                    } else {
                        assert(self.inboxes@[q] == pre.inboxes@[q]);
                    }
                }
            }
            pre.lemma_idx(receiver);
            self.lemma_idx(receiver);
            assert(self.inbox(receiver) == orig.skip(count as int));
            assert forall|r: ReplicaId|
                pre.is_registered(r) && r != receiver implies self.inbox(r) == pre.inbox(r) by {
                pre.lemma_idx(r);
                self.lemma_idx(r);
                assert(self.idx_of(r) == pre.idx_of(r));
                assert(self.idx_of(r) != p);
            }
        }
        received
    }

    /// Fans `messages` out, in order, to every registered replica other
    /// than `sender`: each recipient's inbox gains 1 to 3 copies of each
    /// message, inserted at random positions that never precede an earlier
    /// pending envelope from `sender`; envelopes from other senders are
    /// untouched. The whole batch is then appended to the history log.
    pub fn broadcast(&mut self, sender: ReplicaId, messages: Vec<T>)
        requires
            old(self).wf(),
        ensures
            final(self).wf(),
            final(self).peers() == old(self).peers(),
            final(self).history() == old(self).history() + messages@,
            old(self).is_registered(sender) ==> final(self).inbox(sender) == old(self).inbox(
                sender,
            ),
            forall|r: ReplicaId|
                old(self).is_registered(r) && r != sender ==> delivered(
                    old(self).inbox(r),
                    final(self).inbox(r),
                    sender,
                    messages@,
                ),
    {
        let ghost pre = *self;
        let n = self.ids.len();
        let mut pi: usize = 0;
        while pi < n
            invariant
                pre.wf(),
                n == pre.ids@.len(),
                pi <= n,
                self.wf(),
                self.ids@ == pre.ids@,
                self.all_messages@ == pre.all_messages@,
                self.inboxes@.len() == pre.inboxes@.len(),
                forall|p: int| pi <= p < n ==> self.inboxes@[p] == pre.inboxes@[p],
                forall|p: int|
                    0 <= p < pi && pre.ids@[p] == sender ==> self.inboxes@[p]
                        == pre.inboxes@[p],
                forall|p: int|
                    0 <= p < pi && pre.ids@[p] != sender ==> delivered(
                        pre.inboxes@[p]@,
                        self.inboxes@[p]@,
                        sender,
                        messages@,
                    ),
            decreases n - pi,
        {
            if self.ids[pi] != sender {
                let ghost iter_inboxes = self.inboxes@;
                let ghost inbox0 = self.inboxes@[pi as int]@;
                let ghost owner = self.ids@[pi as int];
                let mut inbox = self.inboxes.remove(pi);
                let ghost inbs_mid = self.inboxes@;
                let ghost mut counts: Seq<int> = Seq::empty();
                proof {
                    assert(messages@.take(0) =~= Seq::<T>::empty());
                    assert(expand(messages@.take(0), counts) == Seq::<T>::empty());
                    assert(from_sender(inbox0, sender) + Seq::<T>::empty() =~= from_sender(
                        inbox0,
                        sender,
                    ));
                }
                let mut mi: usize = 0;
                while mi < messages.len()
                    invariant
                        pi < n,
                        n == pre.ids@.len(),
                        self.ids@ == pre.ids@,
                        self.all_messages@ == pre.all_messages@,
                        self.inboxes@ == inbs_mid,
                        mi <= messages@.len(),
                        valid_counts(counts, mi as int),
                        from_others(inbox@, sender) == from_others(inbox0, sender),
                        from_sender(inbox@, sender) == from_sender(inbox0, sender) + expand(
                            messages@.take(mi as int),
                            counts,
                        ),
                        owner == pre.ids@[pi as int],
                        owner != sender,
                        forall|q: int| 0 <= q < inbox@.len() ==> inbox@[q].sender != owner,
                    decreases messages@.len() - mi,
                {
                    let m = messages[mi];
                    let min_index = last_from_sender(&inbox, sender);
                    let ghost s_m = inbox@;
                    proof {
                        assert(from_sender(inbox@, sender) =~= from_sender(s_m, sender)
                            + Seq::new(0 as nat, |i: int| m));
                    }
                    let k = self.rng.gen_index(1, 3);
                    let mut c: usize = 0;
                    while c < k
                        invariant
                            self.ids@ == pre.ids@,
                            self.all_messages@ == pre.all_messages@,
                            self.inboxes@ == inbs_mid,
                            c <= k,
                            1 <= k <= 3,
                            min_index <= s_m.len(),
                            inbox@.len() == s_m.len() + c,
                            min_index <= inbox@.len(),
                            from_others(inbox@, sender) == from_others(s_m, sender),
                            from_sender(inbox@, sender) == from_sender(s_m, sender) + Seq::new(
                                c as nat,
                                |i: int| m,
                            ),
                            forall|q: int|
                                min_index <= q < inbox@.len() && inbox@[q].sender == sender
                                    ==> inbox@[q].message == m,
                            owner != sender,
                            forall|q: int| 0 <= q < inbox@.len() ==> inbox@[q].sender != owner,
                        decreases k - c,
                    {
                        let len = inbox.len();
                        let ins = self.rng.gen_index(min_index, len);
                        let env = Envelope { message: m, sender: sender };
                        let ghost before = inbox@;
                        inbox.insert(ins, env);
                        proof {
                            lemma_deliver_insert(before, ins as int, env, min_index as int);
                            assert(from_sender(inbox@, sender) =~= from_sender(s_m, sender)
                                + Seq::new((c + 1) as nat, |i: int| m));
                            before.insert_ensures(ins as int, env);
                            assert forall|q: int|
                                min_index <= q < inbox@.len() && inbox@[q].sender == sender
                                implies inbox@[q].message == m by {
                                if q < ins {
                                    assert(inbox@[q] == before[q]);
                                } else if q > ins {
                                    assert(inbox@[q] == before[q - 1]);
                                }
                            }
                            assert forall|q: int|
                                0 <= q < inbox@.len() implies inbox@[q].sender != owner by {
                                if q < ins {
                                    assert(inbox@[q] == before[q]);
                                } else if q > ins {
                                    assert(inbox@[q] == before[q - 1]);
                                }
                            }
                        }
                        c = c + 1;
                    }
                    proof {
                        let oc = counts;
                        counts = counts.push(k as int);
                        assert(valid_counts(counts, (mi + 1) as int)) by {
                            assert(forall|j: int| 0 <= j < mi ==> counts[j] == oc[j]);
                            assert(counts[mi as int] == k as int);
                        }
                        assert(messages@.take(mi + 1) =~= messages@.take(mi as int).push(
                            messages@[mi as int],
                        ));
                        lemma_expand_push(messages@.take(mi as int), oc, messages@[mi as int],
                            k as int);
                        assert(from_sender(inbox@, sender) =~= from_sender(inbox0, sender)
                            + expand(messages@.take(mi + 1), counts)) by {
                            assert(from_sender(inbox@, sender) == (from_sender(inbox0, sender)
                                + expand(messages@.take(mi as int), oc)) + Seq::new(
                                k as nat,
                                |i: int| messages@[mi as int],
                            ));
                            assert(expand(messages@.take(mi + 1), counts) == expand(
                                messages@.take(mi as int),
                                oc,
                            ) + Seq::new(k as nat, |i: int| messages@[mi as int]));
                        }
                    }
                    mi = mi + 1;
                }
                self.inboxes.insert(pi, inbox);
                proof {
                    let p = pi as int;
                    iter_inboxes.remove_ensures(p);
                    inbs_mid.insert_ensures(p, self.inboxes@[p]);
                    assert(self.inboxes@ =~= iter_inboxes.update(p, self.inboxes@[p]));
                    assert(messages@.take(messages@.len() as int) =~= messages@);
                    assert(delivered(inbox0, self.inboxes@[p]@, sender, messages@)) by {
                        assert(valid_counts(counts, messages@.len() as int) && from_sender(
                            self.inboxes@[p]@,
                            sender,
                        ) == from_sender(inbox0, sender) + expand(messages@, counts));
                    }
                    assert(self.wf()) by {
                        assert forall|q: int, w: int|
                            0 <= q < self.inboxes@.len() && 0 <= w < self.inboxes@[q]@.len()
                            implies #[trigger] self.inboxes@[q]@[w].sender != self.ids@[q] by {
                            if q != p {
                                assert(self.inboxes@[q] == iter_inboxes[q]);
                            }
                        }
                    }
                }
            }
            pi = pi + 1;
        }
        let ghost mid = *self;
        let mut hi: usize = 0;
        while hi < messages.len()
            invariant
                hi <= messages@.len(),
                self.ids@ == mid.ids@,
                self.inboxes@ == mid.inboxes@,
                self.all_messages@ == mid.all_messages@ + messages@.take(hi as int),
            decreases messages@.len() - hi,
        {
            let m = messages[hi];
            self.all_messages.push(m);
            proof {
                assert(mid.all_messages@ + messages@.take(hi + 1) =~= (mid.all_messages@
                    + messages@.take(hi as int)).push(messages@[hi as int]));
            }
            hi = hi + 1;
        }
        proof {
            assert(messages@.take(messages@.len() as int) =~= messages@);
            assert(messages@.take(0) =~= Seq::<T>::empty());
            assert(mid.all_messages@ =~= mid.all_messages@ + Seq::<T>::empty());
            if pre.is_registered(sender) {
                pre.lemma_idx(sender);
                self.lemma_idx(sender);
            }
            assert forall|r: ReplicaId|
                pre.is_registered(r) && r != sender implies delivered(
                pre.inbox(r),
                self.inbox(r),
                sender,
                messages@,
            ) by {
                pre.lemma_idx(r);
                self.lemma_idx(r);
            }
        }
    }

    /// The history log: every message ever broadcast, in broadcast order.
    pub fn all_messages(&self) -> (log: &Vec<T>)
        ensures
            log@ == self.history(),
    {
        &self.all_messages
    }
}

/// No self-delivery: a well-formed simulator never holds, in a replica's
/// inbox, an envelope whose sender is that replica — so no `receive` can
/// hand a replica a message it broadcast itself.
pub proof fn lemma_no_self_delivery<T: Copy, R: RandomSource>(
    net: Network<T, R>,
    id: ReplicaId,
    q: int,
)
    requires
        net.wf(),
        net.is_registered(id),
        0 <= q < net.inbox(id).len(),
    ensures
        net.inbox(id)[q].sender != id,
{
    net.lemma_idx(id);
}

/// Idle correctness, forward: when `is_idle` reports true, every
/// registered inbox is empty, so whatever prefix a `receive` would drain,
/// it returns no messages.
pub proof fn lemma_idle_receive_empty<T: Copy, R: RandomSource>(
    net: Network<T, R>,
    id: ReplicaId,
    k: int,
)
    requires
        net.wf(),
        forall|r: ReplicaId| net.is_registered(r) ==> net.inbox(r).len() == 0,
        net.is_registered(id),
        0 <= k <= net.inbox(id).len(),
    ensures
        net.inbox(id).take(k).map_values(|e: Envelope<T>| e.message) == Seq::<T>::empty(),
{
    assert(net.inbox(id).take(k) =~= Seq::<Envelope<T>>::empty());
    assert(net.inbox(id).take(k).map_values(|e: Envelope<T>| e.message) =~= Seq::<T>::empty());
}

/// Idle correctness, backward: when `is_idle` reports false, some
/// registered replica has a pending envelope, and a `receive` there may
/// drain the whole inbox and return at least one message.
pub proof fn lemma_not_idle_receivable<T: Copy, R: RandomSource>(net: Network<T, R>)
    requires
        net.wf(),
        !(forall|r: ReplicaId| net.is_registered(r) ==> net.inbox(r).len() == 0),
    ensures
        exists|id: ReplicaId| net.is_registered(id) && #[trigger] net.inbox(id).len() > 0,
{
    let id = choose|id: ReplicaId| !(net.is_registered(id) ==> net.inbox(id).len() == 0);
    assert(net.is_registered(id) && net.inbox(id).len() > 0);
}

/// Drain correctness: after a `receive` that returned `k` messages, the
/// receiver still has something pending exactly when `k` fell short of
/// what was queued.
pub proof fn lemma_drain_correctness<T: Copy, R: RandomSource>(
    pre: Network<T, R>,
    post: Network<T, R>,
    id: ReplicaId,
    k: int,
)
    requires
        0 <= k <= pre.inbox(id).len(),
        post.inbox(id) == pre.inbox(id).skip(k),
    ensures
        (post.inbox(id).len() > 0) <==> (pre.inbox(id).len() - k > 0),
{
}

/// History completeness: a broadcast appends its batch to the history log
/// — each message exactly once, at its offset in the batch — whatever was
/// delivered, duplicated or left undrained.
pub proof fn lemma_history_completeness<T: Copy, R: RandomSource>(
    pre: Network<T, R>,
    post: Network<T, R>,
    ms: Seq<T>,
)
    requires
        post.history() == pre.history() + ms,
    ensures
        post.history().len() == pre.history().len() + ms.len(),
        post.history().take(pre.history().len() as int) == pre.history(),
        forall|j: int| 0 <= j < ms.len() ==> post.history()[pre.history().len() + j] == ms[j],
{
    assert(post.history().take(pre.history().len() as int) =~= pre.history());
}

} // verus!
