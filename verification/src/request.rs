//! The requests of a batch and the order in which a pass takes them.
use crate::shape::udim;
use vstd::prelude::*;

verus! {

/// Number of a token in the vocabulary.
#[allow(non_camel_case_types)]
pub type utok = u32;

/// Place of a token in its text.
#[allow(non_camel_case_types)]
pub type upos = u32;

/// The tokens that a request brings to a pass.
pub enum Prompt {
    /// One token, after which the next one is wanted.
    Decode(utok),
    /// Several tokens that only fill the cache.
    Prefill(Vec<utok>),
}

/// A text that takes part in a pass.
pub struct Request<C> {
    /// The tokens that are new in this pass.
    pub prompt: Prompt,
    /// What the caller keeps of the earlier tokens, layer by layer.
    pub cache: Vec<C>,
    /// Number of the earlier tokens.
    pub pos: upos,
}

impl<C> Request<C> {
    /// Whether the request wants the next token.
    pub open spec fn decodes(&self) -> bool {
        self.prompt is Decode
    }

    /// Number of the new tokens.
    pub open spec fn tokens(&self) -> nat {
        match self.prompt {
            Prompt::Decode(_) => 1,
            Prompt::Prefill(tokens) => tokens@.len(),
        }
    }

    /// The lengths of the request fit an axis.
    pub open spec fn measurable(&self) -> bool {
        self.pos + self.tokens() <= udim::MAX
    }

    /// Number of the new tokens.
    pub fn seq_len(&self) -> (len: udim)
        requires
            self.tokens() <= udim::MAX,
        ensures
            len == self.tokens(),
            self.prompt is Decode ==> len == 1,
            self.prompt matches Prompt::Prefill(tokens) ==> len == tokens@.len(),
    {
        match &self.prompt {
            Prompt::Decode(_) => 1,
            Prompt::Prefill(tokens) => tokens.len() as udim,
        }
    }

    /// Number of the tokens that the new ones attend to, themselves with them.
    pub fn att_len(&self) -> (len: udim)
        requires
            self.measurable(),
        ensures
            len == self.pos + self.tokens(),
            self.prompt is Decode ==> len == self.pos + 1,
            self.prompt matches Prompt::Prefill(tokens) ==> len == self.pos + tokens@.len(),
    {
        self.pos + self.seq_len()
    }

    fn is_measurable(&self) -> (yes: bool)
        ensures
            yes == self.measurable(),
    {
        match &self.prompt {
            Prompt::Decode(_) => self.pos < udim::MAX,
            Prompt::Prefill(tokens) => tokens.len() <= (udim::MAX - self.pos) as usize,
        }
    }

    fn is_decode(&self) -> (yes: bool)
        ensures
            yes == self.decodes(),
    {
        match &self.prompt {
            Prompt::Decode(_) => true,
            Prompt::Prefill(_) => false,
        }
    }
}

/// Number of the requests before `p` that only prefill.
pub open spec fn prefills_before<C>(s: Seq<Request<C>>, p: int) -> nat
    decreases p,
{
    if p <= 0 {
        0
    } else {
        prefills_before(s, p - 1) + if s[p - 1].decodes() {
            0nat
        } else {
            1
        }
    }
}

/// Number of the requests from `q` on that decode.
pub open spec fn decodes_from<C>(s: Seq<Request<C>>, q: int) -> nat
    decreases s.len() - q,
{
    if q >= s.len() {
        0
    } else {
        decodes_from(s, q + 1) + if s[q].decodes() {
            1nat
        } else {
            0
        }
    }
}

/// The requests at `p` and `q` have changed places.
pub open spec fn exchanged<C>(
    before: Seq<Request<C>>,
    after: Seq<Request<C>>,
    p: int,
    q: int,
) -> bool {
    after[p] == before[q] && after[q] == before[p]
}

/// `after` is `before` with the decoding requests first: those that stand
/// there already stay, and so do the others that stand behind them; of those
/// out of place the leftmost prefill changes places with the rightmost decode,
/// and so on inwards.
pub open spec fn put_decoding_first<C>(before: Seq<Request<C>>, after: Seq<Request<C>>) -> bool {
    let k = decodes_from(before, 0);
    &&& after.len() == before.len()
    &&& forall|p: int| 0 <= p < k && before[p].decodes() ==> #[trigger] after[p] == before[p]
    &&& forall|q: int|
        k <= q < before.len() && !before[q].decodes() ==> #[trigger] after[q] == before[q]
    &&& forall|p: int, q: int|
        0 <= p < k <= q < before.len() && !before[p].decodes() && before[q].decodes()
            && prefills_before(before, p) == decodes_from(before, q + 1) ==> #[trigger] exchanged(
            before,
            after,
            p,
            q,
        )
}

/// `after` is in its final order before `i` and behind `j`, and equals `before`
/// between them.
spec fn sorted_outside<C>(
    before: Seq<Request<C>>,
    after: Seq<Request<C>>,
    i: int,
    j: int,
) -> bool {
    &&& after.len() == before.len()
    &&& 0 <= i <= j + 1 <= before.len()
    &&& prefills_before(before, i) == decodes_from(before, j + 1)
    &&& forall|x: int| i <= x <= j ==> #[trigger] after[x] == before[x]
    &&& forall|p: int| 0 <= p < i ==> (#[trigger] after[p]).decodes()
    &&& forall|q: int| j < q < before.len() ==> !(#[trigger] after[q]).decodes()
    &&& forall|p: int| 0 <= p < i && before[p].decodes() ==> #[trigger] after[p] == before[p]
    &&& forall|q: int|
        j < q < before.len() && !before[q].decodes() ==> #[trigger] after[q] == before[q]
    &&& forall|p: int, q: int|
        0 <= p < i && j < q < before.len() && !before[p].decodes() && before[q].decodes()
            && prefills_before(before, p) == decodes_from(before, q + 1) ==> #[trigger] exchanged(
            before,
            after,
            p,
            q,
        )
}

proof fn lemma_prefills_monotone<C>(s: Seq<Request<C>>, a: int, b: int)
    requires
        0 <= a <= b,
    ensures
        prefills_before(s, a) <= prefills_before(s, b),
    decreases b,
{
    if a < b {
        lemma_prefills_monotone(s, a, b - 1);
    }
}

proof fn lemma_decodes_monotone<C>(s: Seq<Request<C>>, a: int, b: int)
    requires
        0 <= a <= b,
    ensures
        decodes_from(s, b) <= decodes_from(s, a),
    decreases b - a,
{
    if a < b {
        lemma_decodes_monotone(s, a + 1, b);
    }
}

/// The decoding requests are those before `p` that do not prefill and those
/// from `p` on.
proof fn lemma_decodes_split<C>(s: Seq<Request<C>>, p: int)
    requires
        0 <= p <= s.len(),
    ensures
        decodes_from(s, 0) == p - prefills_before(s, p) + decodes_from(s, p),
    decreases p,
{
    if p > 0 {
        lemma_decodes_split(s, p - 1);
    }
}

/// Exchanging the ends of the untouched stretch, a prefill and a decode, moves
/// both ends inwards by one.
proof fn lemma_exchange<C>(
    before: Seq<Request<C>>,
    after: Seq<Request<C>>,
    next: Seq<Request<C>>,
    i: int,
    j: int,
)
    requires
        sorted_outside(before, after, i, j),
        i < j,
        !after[i].decodes(),
        after[j].decodes(),
        next == after.update(i, after[j]).update(j, after[i]),
    ensures
        sorted_outside(before, next, i + 1, j - 1),
{
    assert(after[i] == before[i] && after[j] == before[j]);
    assert(prefills_before(before, i + 1) == prefills_before(before, i) + 1);
    assert(decodes_from(before, j) == decodes_from(before, j + 1) + 1);
    assert forall|p: int, q: int|
        0 <= p < i + 1 && j - 1 < q < before.len() && !before[p].decodes() && before[q].decodes()
            && prefills_before(before, p) == decodes_from(before, q + 1) implies #[trigger] exchanged(
        before,
        next,
        p,
        q,
    ) by {
        if p < i {
            lemma_prefills_monotone(before, p + 1, i);
        }
        if q > j {
            lemma_decodes_monotone(before, j + 1, q);
        }
        if p < i && q > j {
            assert(exchanged(before, after, p, q));
        }
    }
}

proof fn lemma_update_multiset<T>(s: Seq<T>, i: int, t: T)
    requires
        0 <= i < s.len(),
    ensures
        s.update(i, t).to_multiset() == s.to_multiset().remove(s[i]).insert(t),
        s.to_multiset().count(s[i]) > 0,
{
    broadcast use vstd::seq_lib::group_to_multiset_ensures;

    let u = s.update(i, t);
    assert(u.remove(i) =~= s.remove(i));
    assert(u.remove(i).to_multiset() == u.to_multiset().remove(u[i]));
    assert(s.remove(i).to_multiset() == s.to_multiset().remove(s[i]));
    assert(u.contains(u[i]));
    assert(s.contains(s[i]));
    assert(u.to_multiset() =~= s.to_multiset().remove(s[i]).insert(t));
}

/// Exchanging two items leaves the list with the same items.
proof fn lemma_exchange_keeps_items<T>(s: Seq<T>, i: int, j: int)
    requires
        0 <= i < j < s.len(),
    ensures
        s.update(i, s[j]).update(j, s[i]).to_multiset() == s.to_multiset(),
{
    lemma_update_multiset(s, i, s[j]);
    lemma_update_multiset(s.update(i, s[j]), j, s[i]);
    assert(s.update(i, s[j]).update(j, s[i]).to_multiset() =~= s.to_multiset());
}

/// Exchanges two items of a list.
fn exchange<T>(items: &mut Vec<T>, i: usize, j: usize)
    requires
        i < j < old(items)@.len(),
    ensures
        final(items)@ == old(items)@.update(i as int, old(items)@[j as int]).update(
            j as int,
            old(items)@[i as int],
        ),
{
    let (left, right) = items.as_mut_slice().split_at_mut(j);
    core::mem::swap(&mut left[i], &mut right[0]);
}

/// Brings the decoding requests to the front and counts them.
pub fn decoding_first<C>(requests: &mut Vec<Request<C>>) -> (num_decoding: usize)
    requires
        old(requests)@.len() > 0,
    ensures
        num_decoding == decodes_from(old(requests)@, 0),
        put_decoding_first(old(requests)@, final(requests)@),
        final(requests)@.to_multiset() == old(requests)@.to_multiset(),
        final(requests)@.len() == old(requests)@.len(),
        forall|i: int|
            0 <= i < final(requests)@.len() ==> ((#[trigger] final(requests)@[i]).prompt is Decode
                <==> i < num_decoding),
{
    let ghost before = requests@;
    let mut i: usize = 0;
    let mut j: usize = requests.len() - 1;
    while i < j
        invariant
            i < before.len(),
            sorted_outside(before, requests@, i as int, j as int),
            requests@.to_multiset() == before.to_multiset(),
        decreases j + 1 - i,
    {
        if requests[i].is_decode() {
            i += 1;
        } else if !requests[j].is_decode() {
            j -= 1;
        } else {
            let ghost now = requests@;
            exchange(requests, i, j);
            proof {
                lemma_exchange(before, now, requests@, i as int, j as int);
                lemma_exchange_keeps_items(now, i as int, j as int);
            }
            i += 1;
            j -= 1;
        }
    }
    let num_decoding: usize = if requests[i].is_decode() {
        i + 1
    } else {
        i
    };
    proof {
        lemma_decodes_split(before, i as int);
        law_decoding_in_front(before, requests@);
        assert forall|x: int| 0 <= x < requests@.len() implies ((
        #[trigger] requests@[x]).prompt is Decode <==> x < num_decoding) by {
            assert(requests@[x].decodes() <==> x < num_decoding);
        }
    }
    num_decoding
}

/// Some decoding request from `k` on has exactly `t` decoding requests behind
/// it.
proof fn lemma_decode_with_rank<C>(s: Seq<Request<C>>, k: int, t: nat) -> (q: int)
    requires
        0 <= k,
        t < decodes_from(s, k),
    ensures
        k <= q < s.len(),
        s[q].decodes(),
        decodes_from(s, q + 1) == t,
    decreases s.len() - k,
{
    if s[k].decodes() && decodes_from(s, k + 1) == t {
        k
    } else {
        lemma_decode_with_rank(s, k + 1, t)
    }
}

/// Some prefill before `k` has exactly `t` prefills before it.
proof fn lemma_prefill_with_rank<C>(s: Seq<Request<C>>, k: int, t: nat) -> (p: int)
    requires
        t < prefills_before(s, k),
    ensures
        0 <= p < k,
        !s[p].decodes(),
        prefills_before(s, p) == t,
    decreases k,
{
    if !s[k - 1].decodes() && prefills_before(s, k - 1) == t {
        k - 1
    } else {
        lemma_prefill_with_rank(s, k - 1, t)
    }
}

/// The prefill at `p`, in front of the boundary `k`, has a decoding request
/// behind the boundary that it changes places with.
proof fn lemma_partner_behind<C>(s: Seq<Request<C>>, p: int) -> (q: int)
    requires
        0 <= p < decodes_from(s, 0) <= s.len(),
        !s[p].decodes(),
    ensures
        decodes_from(s, 0) <= q < s.len(),
        s[q].decodes(),
        prefills_before(s, p) == decodes_from(s, q + 1),
{
    let k = decodes_from(s, 0) as int;
    lemma_decodes_split(s, k);
    lemma_prefills_monotone(s, p + 1, k);
    lemma_decode_with_rank(s, k, prefills_before(s, p))
}

/// The decoding request at `q`, behind the boundary, has a prefill in front of
/// the boundary that it changes places with.
proof fn lemma_partner_in_front<C>(s: Seq<Request<C>>, q: int) -> (p: int)
    requires
        decodes_from(s, 0) <= q < s.len(),
        s[q].decodes(),
    ensures
        0 <= p < decodes_from(s, 0),
        !s[p].decodes(),
        prefills_before(s, p) == decodes_from(s, q + 1),
{
    let k = decodes_from(s, 0) as int;
    lemma_decodes_split(s, k);
    lemma_decodes_monotone(s, k, q);
    lemma_prefill_with_rank(s, k, decodes_from(s, q + 1))
}

proof fn lemma_decodes_bound<C>(s: Seq<Request<C>>, q: int)
    requires
        0 <= q <= s.len(),
    ensures
        decodes_from(s, q) <= s.len() - q,
    decreases s.len() - q,
{
    if q < s.len() {
        lemma_decodes_bound(s, q + 1);
    }
}

/// In the order of a pass the decoding requests stand in front of all others.
pub proof fn law_decoding_in_front<C>(before: Seq<Request<C>>, after: Seq<Request<C>>)
    requires
        put_decoding_first(before, after),
    ensures
        decodes_from(before, 0) <= after.len(),
        forall|i: int|
            0 <= i < after.len() ==> ((#[trigger] after[i]).decodes() <==> i < decodes_from(
                before,
                0,
            )),
{
    lemma_decodes_bound(before, 0);
    let k = decodes_from(before, 0);
    assert forall|i: int| 0 <= i < after.len() implies ((#[trigger] after[i]).decodes() <==> i
        < k) by {
        if i < k && !before[i].decodes() {
            let q = lemma_partner_behind(before, i);
            assert(exchanged(before, after, i, q));
        }
        if i >= k && before[i].decodes() {
            let p = lemma_partner_in_front(before, i);
            assert(exchanged(before, after, p, i));
        }
    }
}

/// A batch has one order in a pass.
pub proof fn law_order_is_unique<C>(
    before: Seq<Request<C>>,
    one: Seq<Request<C>>,
    other: Seq<Request<C>>,
)
    requires
        put_decoding_first(before, one),
        put_decoding_first(before, other),
    ensures
        one == other,
{
    lemma_decodes_bound(before, 0);
    let k = decodes_from(before, 0);
    assert forall|i: int| 0 <= i < before.len() implies one[i] == other[i] by {
        if i < k && !before[i].decodes() {
            let q = lemma_partner_behind(before, i);
            assert(exchanged(before, one, i, q) && exchanged(before, other, i, q));
        }
        if i >= k && before[i].decodes() {
            let p = lemma_partner_in_front(before, i);
            assert(exchanged(before, one, p, i) && exchanged(before, other, p, i));
        }
    }
    assert(one =~= other);
}

proof fn lemma_no_decodes<C>(s: Seq<Request<C>>, q: int)
    requires
        0 <= q,
        forall|i: int| q <= i < s.len() ==> !(#[trigger] s[i]).decodes(),
    ensures
        decodes_from(s, q) == 0,
    decreases s.len() - q,
{
    if q < s.len() {
        lemma_no_decodes(s, q + 1);
    }
}

proof fn lemma_no_prefills<C>(s: Seq<Request<C>>, p: int)
    requires
        p <= s.len(),
        forall|i: int| 0 <= i < p ==> (#[trigger] s[i]).decodes(),
    ensures
        prefills_before(s, p) == 0,
    decreases p,
{
    if p > 0 {
        lemma_no_prefills(s, p - 1);
    }
}

/// A batch whose first `k` requests decode and whose others do not keeps its
/// order.
pub proof fn law_ordered_batch_stays<C>(before: Seq<Request<C>>, after: Seq<Request<C>>, k: int)
    requires
        0 <= k <= before.len(),
        forall|i: int| 0 <= i < before.len() ==> ((#[trigger] before[i]).decodes() <==> i < k),
        put_decoding_first(before, after),
    ensures
        after == before,
{
    lemma_no_decodes(before, k);
    lemma_no_prefills(before, k);
    lemma_decodes_split(before, k);
    assert(after =~= before);
}

/// Bringing the decoding requests to the front keeps their number.
pub proof fn law_order_keeps_decoding<C>(before: Seq<Request<C>>, after: Seq<Request<C>>)
    requires
        put_decoding_first(before, after),
    ensures
        decodes_from(after, 0) == decodes_from(before, 0),
{
    let k = decodes_from(before, 0) as int;
    law_decoding_in_front(before, after);
    lemma_no_decodes(after, k);
    lemma_no_prefills(after, k);
    lemma_decodes_split(after, k);
}

/// The place of the request that changes places with the one at `i`.
spec fn partner<C>(s: Seq<Request<C>>, i: int) -> int {
    let k = decodes_from(s, 0) as int;
    if i < k && !s[i].decodes() {
        choose|q: int|
            k <= q < s.len() && (#[trigger] s[q]).decodes() && prefills_before(s, i)
                == decodes_from(s, q + 1)
    } else if i >= k && s[i].decodes() {
        choose|p: int|
            0 <= p < k && !(#[trigger] s[p]).decodes() && prefills_before(s, p) == decodes_from(
                s,
                i + 1,
            )
    } else {
        i
    }
}

proof fn lemma_partner<C>(s: Seq<Request<C>>, i: int)
    requires
        0 <= i < s.len(),
    ensures
        ({
            let k = decodes_from(s, 0) as int;
            let p = partner(s, i);
            &&& 0 <= p < s.len()
            &&& i < k && !s[i].decodes() ==> k <= p && s[p].decodes() && prefills_before(s, i)
                == decodes_from(s, p + 1)
            &&& i >= k && s[i].decodes() ==> p < k && !s[p].decodes() && prefills_before(s, p)
                == decodes_from(s, i + 1)
            &&& (i < k <==> s[i].decodes()) ==> p == i
        }),
{
    lemma_decodes_bound(s, 0);
    let k = decodes_from(s, 0) as int;
    if i < k && !s[i].decodes() {
        let q = lemma_partner_behind(s, i);
        assert(s[q].decodes());
    }
    if i >= k && s[i].decodes() {
        let p = lemma_partner_in_front(s, i);
        assert(!s[p].decodes());
    }
}

proof fn lemma_rank_of_prefill<C>(s: Seq<Request<C>>, p: int, q: int)
    requires
        0 <= p < q,
        !s[p].decodes(),
    ensures
        prefills_before(s, p) < prefills_before(s, q),
{
    lemma_prefills_monotone(s, p + 1, q);
}

proof fn lemma_rank_of_decode<C>(s: Seq<Request<C>>, p: int, q: int)
    requires
        0 <= p < q < s.len(),
        s[q].decodes(),
    ensures
        decodes_from(s, q + 1) < decodes_from(s, p + 1),
{
    lemma_decodes_monotone(s, p + 1, q);
}

/// The requests that stand on the wrong side of the boundary between decoding
/// requests and others change places in pairs, the first with the last and so
/// on inwards, and all others stay: `from[i]` is where the request at `i` stood.
pub proof fn law_misplaced_requests_turn_round<C>(
    before: Seq<Request<C>>,
    after: Seq<Request<C>>,
) -> (from: Seq<int>)
    requires
        put_decoding_first(before, after),
    ensures
        from.len() == before.len() == after.len(),
        forall|i: int, j: int|
            0 <= i < j < after.len() && (#[trigger] after[j]).prompt is Decode
                ==> (#[trigger] after[i]).prompt is Decode,
        forall|i: int|
            0 <= i < after.len() ==> (#[trigger] from[i] == i <==> (before[i].prompt is Decode
                <==> after[i].prompt is Decode)),
        forall|i: int|
            0 <= i < after.len() ==> 0 <= #[trigger] from[i] < after.len() && after[i]
                == before[from[i]] && from[from[i]] == i,
        forall|i: int, j: int|
            0 <= i < j < after.len() && #[trigger] from[i] != i && #[trigger] from[j] != j
                ==> from[j] < from[i],
{
    let k = decodes_from(before, 0) as int;
    let from = Seq::new(before.len(), |i: int| partner(before, i));
    law_decoding_in_front(before, after);
    assert forall|i: int| 0 <= i < after.len() implies 0 <= #[trigger] from[i] < after.len()
        && after[i] == before[from[i]] && from[from[i]] == i && (from[i] == i <==> (
    before[i].prompt is Decode <==> after[i].prompt is Decode)) by {
        let p = from[i];
        assert(after[i].decodes() <==> i < k);
        lemma_partner(before, i);
        lemma_partner(before, p);
        let b = partner(before, p);
        if i < k && !before[i].decodes() {
            assert(exchanged(before, after, i, p));
            if b < i {
                lemma_rank_of_prefill(before, b, i);
            }
            if i < b {
                lemma_rank_of_prefill(before, i, b);
            }
        }
        if i >= k && before[i].decodes() {
            assert(exchanged(before, after, p, i));
            if b < i {
                lemma_rank_of_decode(before, b, i);
            }
            if i < b {
                lemma_rank_of_decode(before, i, b);
            }
        }
    }
    assert forall|i: int, j: int|
        0 <= i < j < after.len() && (#[trigger] after[j]).prompt is Decode implies (
    #[trigger] after[i]).prompt is Decode by {
        assert(after[j].decodes() && after[i].decodes() == (i < k));
    }
    assert forall|i: int, j: int|
        0 <= i < j < after.len() && #[trigger] from[i] != i && #[trigger] from[j]
            != j implies from[j] < from[i] by {
        lemma_partner(before, i);
        lemma_partner(before, j);
        let p = from[i];
        let q = from[j];
        if j < k {
            lemma_rank_of_prefill(before, i, j);
            if p < q {
                lemma_rank_of_decode(before, p, q);
            }
        } else if i >= k {
            lemma_rank_of_decode(before, i, j);
            if p < q {
                lemma_rank_of_prefill(before, p, q);
            }
        }
    }
    from
}

proof fn lemma_decodes_of_tail<C>(a: Seq<Request<C>>, b: Seq<Request<C>>, q: int)
    requires
        0 <= q <= b.len(),
    ensures
        decodes_from(a + b, a.len() + q) == decodes_from(b, q),
    decreases b.len() - q,
{
    if q < b.len() {
        lemma_decodes_of_tail(a, b, q + 1);
    }
}

proof fn lemma_decodes_of_head<C>(a: Seq<Request<C>>, b: Seq<Request<C>>, q: int)
    requires
        0 <= q <= a.len(),
    ensures
        decodes_from(a + b, q) == decodes_from(a, q) + decodes_from(b, 0),
    decreases a.len() - q,
{
    if q < a.len() {
        lemma_decodes_of_head(a, b, q + 1);
    } else {
        lemma_decodes_of_tail(a, b, 0);
    }
}

/// The decoding requests of a batch are those of its parts, and a request alone
/// counts exactly where it wants the next token.
pub proof fn law_decoding_requests_add_up<C>(
    a: Seq<Request<C>>,
    b: Seq<Request<C>>,
    request: Request<C>,
)
    ensures
        decodes_from(a + b, 0) == decodes_from(a, 0) + decodes_from(b, 0),
        decodes_from(Seq::<Request<C>>::empty(), 0) == 0,
        request.prompt is Decode ==> decodes_from(seq![request], 0) == 1,
        !(request.prompt is Decode) ==> decodes_from(seq![request], 0) == 0,
{
    reveal_with_fuel(decodes_from, 3);
    lemma_decodes_of_head(a, b, 0);
}

/// Number of the new tokens of the requests before `r`: the row at which the
/// tokens of request `r` begin.
pub open spec fn offset<C>(s: Seq<Request<C>>, r: int) -> nat
    decreases r,
{
    if r <= 0 {
        0
    } else {
        offset(s, r - 1) + s[r - 1].tokens()
    }
}

/// The largest number of new tokens among the requests before `r`.
pub open spec fn longest_seq<C>(s: Seq<Request<C>>, r: int) -> nat
    decreases r,
{
    if r <= 0 {
        0
    } else {
        vstd::math::max(longest_seq(s, r - 1) as int, s[r - 1].tokens() as int) as nat
    }
}

/// The largest number of attended tokens among the requests before `r`.
pub open spec fn longest_att<C>(s: Seq<Request<C>>, r: int) -> nat
    decreases r,
{
    if r <= 0 {
        0
    } else {
        vstd::math::max(longest_att(s, r - 1) as int, s[r - 1].pos + s[r - 1].tokens()) as nat
    }
}

/// Every length of the batch fits an axis.
pub open spec fn countable<C>(s: Seq<Request<C>>) -> bool {
    &&& forall|r: int| 0 <= r < s.len() ==> (#[trigger] s[r]).measurable()
    &&& offset(s, s.len() as int) <= udim::MAX
}

/// Every request keeps a cache for each of the layers.
pub open spec fn layered<C>(s: Seq<Request<C>>, layers: nat) -> bool {
    forall|r: int| 0 <= r < s.len() ==> (#[trigger] s[r]).cache@.len() >= layers
}

/// The places in their texts of the new tokens of the requests before `r`.
pub open spec fn places<C>(s: Seq<Request<C>>, r: int) -> Seq<upos>
    decreases r,
{
    if r <= 0 {
        Seq::empty()
    } else {
        places(s, r - 1) + Seq::new(s[r - 1].tokens(), |t: int| (s[r - 1].pos + t) as upos)
    }
}

/// The rows of a request begin after those of the requests before it.
pub proof fn lemma_offset_monotone<C>(s: Seq<Request<C>>, a: int, b: int)
    requires
        0 <= a <= b,
    ensures
        offset(s, a) <= offset(s, b),
    decreases b,
{
    if a < b {
        lemma_offset_monotone(s, a, b - 1);
    }
}

/// The lengths of a batch that the sizes of the buffers follow from.
pub struct Extent {
    /// Number of the new tokens.
    pub num_tokens: udim,
    /// The largest number of new tokens of a request.
    pub max_seq_len: udim,
    /// The largest number of attended tokens of a request.
    pub max_att_len: udim,
}

/// Measures a batch, where every length fits an axis.
pub fn measure<C>(requests: &Vec<Request<C>>) -> (extent: Option<Extent>)
    ensures
        extent is Some <==> countable(requests@),
        extent is Some <==> offset(requests@, requests@.len() as int) <= udim::MAX && forall|
            r: int,
        |
            0 <= r < requests@.len() ==> (#[trigger] requests@[r]).pos + requests@[r].tokens()
                <= udim::MAX,
        extent matches Some(e) ==> {
            &&& e.num_tokens == offset(requests@, requests@.len() as int)
            &&& e.max_seq_len == longest_seq(requests@, requests@.len() as int)
            &&& e.max_att_len == longest_att(requests@, requests@.len() as int)
        },
{
    let mut num_tokens: udim = 0;
    let mut max_seq_len: udim = 0;
    let mut max_att_len: udim = 0;
    let mut r: usize = 0;
    while r < requests.len()
        invariant
            r <= requests@.len(),
            forall|i: int| 0 <= i < r ==> (#[trigger] requests@[i]).measurable(),
            num_tokens == offset(requests@, r as int),
            max_seq_len == longest_seq(requests@, r as int),
            max_att_len == longest_att(requests@, r as int),
        decreases requests@.len() - r,
    {
        proof {
            lemma_offset_monotone(requests@, r + 1, requests@.len() as int);
        }
        if !requests[r].is_measurable() {
            assert(!requests@[r as int].measurable());
            return None;
        }
        let seq_len: udim = requests[r].seq_len();
        let att_len: udim = requests[r].att_len();
        match num_tokens.checked_add(seq_len) {
            Some(n) => {
                num_tokens = n;
            },
            None => {
                return None;
            },
        }
        if max_seq_len < seq_len {
            max_seq_len = seq_len;
        }
        if max_att_len < att_len {
            max_att_len = att_len;
        }
        r += 1;
    }
    Some(Extent { num_tokens, max_seq_len, max_att_len })
}

/// Whether every request of a batch keeps a cache for each of the layers.
pub fn has_layers<C>(requests: &Vec<Request<C>>, layers: usize) -> (yes: bool)
    ensures
        yes == layered(requests@, layers as nat),
        yes <==> forall|r: int|
            0 <= r < requests@.len() ==> (#[trigger] requests@[r]).cache@.len() >= layers,
{
    let mut r: usize = 0;
    while r < requests.len()
        invariant
            r <= requests@.len(),
            forall|i: int| 0 <= i < r ==> (#[trigger] requests@[i]).cache@.len() >= layers,
        decreases requests@.len() - r,
    {
        if requests[r].cache.len() < layers {
            assert(requests@[r as int].cache@.len() < layers);
            return false;
        }
        r += 1;
    }
    true
}

/// Counts the decoding requests of a batch.
pub fn count_decoding<C>(requests: &Vec<Request<C>>) -> (count: usize)
    ensures
        count == decodes_from(requests@, 0),
{
    let len: usize = requests.len();
    let mut count: usize = 0;
    let mut q: usize = len;
    while q > 0
        invariant
            q <= len == requests@.len(),
            count == decodes_from(requests@, q as int),
            count <= len - q,
        decreases q,
    {
        q -= 1;
        if requests[q].is_decode() {
            count += 1;
        }
    }
    count
}

/// The places in their texts of all new tokens, request by request.
pub fn positions<C>(requests: &Vec<Request<C>>) -> (pos: Vec<upos>)
    requires
        countable(requests@),
    ensures
        pos@ == places(requests@, requests@.len() as int),
        pos@.len() == offset(requests@, requests@.len() as int),
        forall|r: int, t: int|
            #![trigger requests@[r], offset(requests@, r) + t]
            0 <= r < requests@.len() && 0 <= t < requests@[r].tokens() ==> pos@[offset(
                requests@,
                r,
            ) + t] == requests@[r].pos + t,
{
    let mut pos: Vec<upos> = Vec::new();
    let mut r: usize = 0;
    while r < requests.len()
        invariant
            r <= requests@.len(),
            countable(requests@),
            pos@ == places(requests@, r as int),
        decreases requests@.len() - r,
    {
        assert(requests@[r as int].measurable());
        let ghost done = pos@;
        let first: upos = requests[r].pos;
        let end: upos = requests[r].att_len();
        let mut p: upos = first;
        while p < end
            invariant
                first <= p <= end,
                pos@ == done + Seq::new((p - first) as nat, |t: int| (first + t) as upos),
            decreases end - p,
        {
            pos.push(p);
            p += 1;
            assert(pos@ =~= done + Seq::new((p - first) as nat, |t: int| (first + t) as upos));
        }
        r += 1;
        assert(pos@ =~= places(requests@, r as int));
    }
    proof {
        law_places_follow_rows(requests@, requests@.len() as int);
    }
    pos
}

/// Every new token stands in the row that its request begins with plus its
/// number in the request, and its place is that number after the earlier
/// tokens of the request.
pub proof fn law_places_follow_rows<C>(s: Seq<Request<C>>, n: int)
    requires
        0 <= n <= s.len(),
        forall|r: int| 0 <= r < n ==> (#[trigger] s[r]).measurable(),
    ensures
        places(s, n).len() == offset(s, n),
        forall|r: int, t: int|
            #![trigger s[r], offset(s, r) + t]
            0 <= r < n && 0 <= t < s[r].tokens() ==> places(s, n)[offset(s, r) + t] == s[r].pos + t,
    decreases n,
{
    if n > 0 {
        law_places_follow_rows(s, n - 1);
        assert forall|r: int, t: int|
            #![trigger s[r], offset(s, r) + t]
            0 <= r < n && 0 <= t < s[r].tokens() implies places(s, n)[offset(s, r) + t] == s[r].pos
            + t by {
            assert(s[r].measurable());
            if r < n - 1 {
                lemma_offset_monotone(s, r + 1, n - 1);
            }
        }
    }
}

/// The rows of the requests lie side by side in their order and fill the rows
/// of the batch: every row belongs to exactly one request.
pub proof fn law_rows_tile<C>(s: Seq<Request<C>>, row: int)
    requires
        0 <= row < offset(s, s.len() as int),
    ensures
        exists|r: int|
            0 <= r < s.len() && #[trigger] offset(s, r) <= row < offset(s, r) + s[r].tokens(),
        forall|a: int, b: int|
            0 <= a < s.len() && 0 <= b < s.len() && #[trigger] offset(s, a) <= row < offset(s, a)
                + s[a].tokens() && #[trigger] offset(s, b) <= row < offset(s, b) + s[b].tokens()
                ==> a == b,
{
    lemma_row_owner(s, s.len() as int, row);
    assert forall|a: int, b: int|
        0 <= a < s.len() && 0 <= b < s.len() && #[trigger] offset(s, a) <= row < offset(s, a)
            + s[a].tokens() && #[trigger] offset(s, b) <= row < offset(s, b)
            + s[b].tokens() implies a == b by {
        if a < b {
            lemma_offset_monotone(s, a + 1, b);
        }
        if b < a {
            lemma_offset_monotone(s, b + 1, a);
        }
    }
}

proof fn lemma_row_owner<C>(s: Seq<Request<C>>, n: int, row: int)
    requires
        0 <= n <= s.len(),
        0 <= row < offset(s, n),
    ensures
        exists|r: int|
            0 <= r < n && #[trigger] offset(s, r) <= row < offset(s, r) + s[r].tokens(),
    decreases n,
{
    if row < offset(s, n - 1) {
        lemma_row_owner(s, n - 1, row);
    } else {
        assert(offset(s, n - 1) <= row < offset(s, n - 1) + s[n - 1].tokens());
    }
}

/// In the order of a pass the decoding requests own the first rows, one each.
pub proof fn law_decoding_rows_lead<C>(before: Seq<Request<C>>, after: Seq<Request<C>>, r: int)
    requires
        put_decoding_first(before, after),
        0 <= r <= decodes_from(before, 0),
    ensures
        offset(after, r) == r,
        r < decodes_from(before, 0) ==> after[r].tokens() == 1,
    decreases r,
{
    law_decoding_in_front(before, after);
    if r > 0 {
        law_decoding_rows_lead(before, after, r - 1);
    }
}

/// The measured lengths bound those of every request, and where the batch is
/// not empty some request reaches them.
pub proof fn law_extent_is_tight<C>(s: Seq<Request<C>>, n: int)
    requires
        0 <= n <= s.len(),
    ensures
        forall|r: int|
            0 <= r < n ==> (#[trigger] s[r]).tokens() <= longest_seq(s, n) && s[r].pos
                + s[r].tokens() <= longest_att(s, n) && s[r].tokens() <= offset(s, n),
        n > 0 ==> exists|r: int| 0 <= r < n && (#[trigger] s[r]).tokens() == longest_seq(s, n),
        n > 0 ==> exists|r: int|
            0 <= r < n && (#[trigger] s[r]).pos + s[r].tokens() == longest_att(s, n),
    decreases n,
{
    if n > 0 {
        law_extent_is_tight(s, n - 1);
        assert(longest_seq(s, 0) == 0 && longest_att(s, 0) == 0);
        assert(s[n - 1].tokens() <= longest_seq(s, n));
        if n > 1 {
            let a = choose|r: int|
                0 <= r < n - 1 && (#[trigger] s[r]).tokens() == longest_seq(s, n - 1);
            let b = choose|r: int|
                0 <= r < n - 1 && (#[trigger] s[r]).pos + s[r].tokens() == longest_att(s, n - 1);
            assert(s[a].tokens() == longest_seq(s, n - 1));
            assert(s[b].pos + s[b].tokens() == longest_att(s, n - 1));
        }
    }
}

proof fn lemma_offset_remove<C>(s: Seq<Request<C>>, i: int, n: int)
    requires
        0 <= i < n <= s.len(),
    ensures
        offset(s, n) == offset(s.remove(i), n - 1) + s[i].tokens(),
    decreases n,
{
    if n - 1 > i {
        lemma_offset_remove(s, i, n - 1);
        assert(s.remove(i)[n - 2] == s[n - 1]);
    } else {
        lemma_offset_agrees(s, s.remove(i), i);
    }
}

proof fn lemma_offset_agrees<C>(a: Seq<Request<C>>, b: Seq<Request<C>>, n: int)
    requires
        0 <= n <= a.len(),
        n <= b.len(),
        forall|r: int| 0 <= r < n ==> #[trigger] a[r] == b[r],
    ensures
        offset(a, n) == offset(b, n),
    decreases n,
{
    if n > 0 {
        lemma_offset_agrees(a, b, n - 1);
        assert(a[n - 1] == b[n - 1]);
    }
}

proof fn lemma_offset_of_tail<C>(a: Seq<Request<C>>, b: Seq<Request<C>>, n: int)
    requires
        0 <= n <= b.len(),
    ensures
        offset(a + b, a.len() + n) == offset(a, a.len() as int) + offset(b, n),
    decreases n,
{
    if n > 0 {
        lemma_offset_of_tail(a, b, n - 1);
        assert((a + b)[a.len() + n - 1] == b[n - 1]);
    } else {
        lemma_offset_agrees(a + b, a, a.len() as int);
    }
}

/// The new tokens of a batch are those of its parts, and a request alone has one
/// where it decodes and those of its prompt where it does not.
pub proof fn law_tokens_add_up<C>(a: Seq<Request<C>>, b: Seq<Request<C>>, request: Request<C>)
    ensures
        offset(a + b, (a + b).len() as int) == offset(a, a.len() as int) + offset(
            b,
            b.len() as int,
        ),
        forall|r: int| 0 <= r <= a.len() ==> #[trigger] offset(a + b, r) == offset(a, r),
        offset(Seq::<Request<C>>::empty(), 0) == 0,
        request.prompt is Decode ==> offset(seq![request], 1) == 1,
        request.prompt matches Prompt::Prefill(tokens) ==> offset(seq![request], 1)
            == tokens@.len(),
{
    reveal_with_fuel(offset, 3);
    lemma_offset_of_tail(a, b, b.len() as int);
    assert forall|r: int| 0 <= r <= a.len() implies #[trigger] offset(a + b, r) == offset(
        a,
        r,
    ) by {
        lemma_offset_agrees(a + b, a, r);
    }
}

proof fn lemma_offset_of_items<C>(a: Seq<Request<C>>, b: Seq<Request<C>>)
    requires
        a.to_multiset() == b.to_multiset(),
    ensures
        a.len() == b.len(),
        offset(a, a.len() as int) == offset(b, b.len() as int),
    decreases a.len(),
{
    broadcast use vstd::seq_lib::group_to_multiset_ensures;

    assert(a.len() == a.to_multiset().len());
    assert(b.len() == b.to_multiset().len());
    if a.len() > 0 {
        assert(a.contains(a[0]));
        assert(b.to_multiset().count(a[0]) > 0);
        assert(b.contains(a[0]));
        let i = choose|i: int| 0 <= i < b.len() && b[i] == a[0];
        assert(a.remove(0).to_multiset() == b.remove(i).to_multiset());
        lemma_offset_of_items(a.remove(0), b.remove(i));
        lemma_offset_remove(a, 0, a.len() as int);
        lemma_offset_remove(b, i, b.len() as int);
    }
}

proof fn lemma_longest_of_items<C>(a: Seq<Request<C>>, b: Seq<Request<C>>)
    requires
        a.to_multiset() == b.to_multiset(),
    ensures
        longest_seq(a, a.len() as int) <= longest_seq(b, b.len() as int),
        longest_att(a, a.len() as int) <= longest_att(b, b.len() as int),
{
    broadcast use vstd::seq_lib::group_to_multiset_ensures;

    law_extent_is_tight(a, a.len() as int);
    law_extent_is_tight(b, b.len() as int);
    assert(a.len() == a.to_multiset().len());
    assert(b.len() == b.to_multiset().len());
    if a.len() > 0 {
        let x = choose|r: int|
            0 <= r < a.len() && (#[trigger] a[r]).tokens() == longest_seq(a, a.len() as int);
        let y = choose|r: int|
            0 <= r < a.len() && (#[trigger] a[r]).pos + a[r].tokens() == longest_att(
                a,
                a.len() as int,
            );
        assert(a.contains(a[x]) && a.contains(a[y]));
        assert(b.to_multiset().count(a[x]) > 0 && b.to_multiset().count(a[y]) > 0);
        assert(b.contains(a[x]) && b.contains(a[y]));
    }
}

/// Batches of the same requests have the same lengths and caches for the same
/// layers, whatever their order.
pub proof fn law_order_keeps_extent<C>(a: Seq<Request<C>>, b: Seq<Request<C>>)
    requires
        a.to_multiset() == b.to_multiset(),
    ensures
        a.len() == b.len(),
        offset(a, a.len() as int) == offset(b, b.len() as int),
        longest_seq(a, a.len() as int) == longest_seq(b, b.len() as int),
        longest_att(a, a.len() as int) == longest_att(b, b.len() as int),
        countable(a) ==> countable(b),
        forall|layers: nat| layered(a, layers) ==> layered(b, layers),
{
    broadcast use vstd::seq_lib::group_to_multiset_ensures;

    lemma_offset_of_items(a, b);
    lemma_longest_of_items(a, b);
    lemma_longest_of_items(b, a);
    assert forall|r: int| 0 <= r < b.len() implies a.contains(#[trigger] b[r]) by {
        assert(b.contains(b[r]));
        assert(a.to_multiset().count(b[r]) > 0);
    }
    if countable(a) {
        assert forall|r: int| 0 <= r < b.len() implies (#[trigger] b[r]).measurable() by {
            assert(a.contains(b[r]));
        }
    }
    assert forall|layers: nat| layered(a, layers) implies layered(b, layers) by {
        assert forall|r: int| 0 <= r < b.len() implies (#[trigger] b[r]).cache@.len()
            >= layers by {
            assert(a.contains(b[r]));
        }
    }
}

proof fn lemma_decodes_have_tokens<C>(s: Seq<Request<C>>, n: int)
    requires
        0 <= n <= s.len(),
    ensures
        n - prefills_before(s, n) <= offset(s, n),
    decreases n,
{
    if n > 0 {
        lemma_decodes_have_tokens(s, n - 1);
    }
}

/// A batch has at least one new token for each decoding request.
pub proof fn law_decoding_within_tokens<C>(s: Seq<Request<C>>)
    ensures
        decodes_from(s, 0) <= offset(s, s.len() as int),
{
    lemma_decodes_split(s, s.len() as int);
    lemma_decodes_have_tokens(s, s.len() as int);
}

/// A batch with a decoding request counts it.
pub proof fn lemma_some_decode<C>(s: Seq<Request<C>>, r: int)
    requires
        0 <= r < s.len(),
        s[r].decodes(),
    ensures
        decodes_from(s, 0) > 0,
{
    lemma_decodes_monotone(s, 0, r);
}

/// A batch without a decoding request counts none.
pub proof fn lemma_none_decode<C>(s: Seq<Request<C>>)
    requires
        forall|r: int| 0 <= r < s.len() ==> !(#[trigger] s[r]).decodes(),
    ensures
        decodes_from(s, 0) == 0,
{
    lemma_no_decodes(s, 0);
}

/// The requests bring the same tokens at the same place; their caches may
/// differ.
pub open spec fn alike<C>(x: Request<C>, y: Request<C>) -> bool {
    x.pos == y.pos && match (x.prompt, y.prompt) {
        (Prompt::Decode(a), Prompt::Decode(b)) => a == b,
        (Prompt::Prefill(a), Prompt::Prefill(b)) => a@ == b@,
        _ => false,
    }
}

/// The batches differ in nothing but the caches of their requests.
pub open spec fn all_alike<C>(a: Seq<Request<C>>, b: Seq<Request<C>>) -> bool {
    &&& a.len() == b.len()
    &&& forall|r: int|
        #![trigger a[r]]
        #![trigger b[r]]
        0 <= r < a.len() ==> alike(a[r], b[r])
}

proof fn lemma_alike_before<C>(a: Seq<Request<C>>, b: Seq<Request<C>>, n: int)
    requires
        all_alike(a, b),
        0 <= n <= a.len(),
    ensures
        prefills_before(a, n) == prefills_before(b, n),
        offset(a, n) == offset(b, n),
        longest_seq(a, n) == longest_seq(b, n),
        longest_att(a, n) == longest_att(b, n),
        places(a, n) == places(b, n),
    decreases n,
{
    if n > 0 {
        lemma_alike_before(a, b, n - 1);
        assert(alike(a[n - 1], b[n - 1]));
        assert(places(a, n) =~= places(b, n));
    }
}

proof fn lemma_alike_from<C>(a: Seq<Request<C>>, b: Seq<Request<C>>, q: int)
    requires
        all_alike(a, b),
        0 <= q <= a.len(),
    ensures
        decodes_from(a, q) == decodes_from(b, q),
    decreases a.len() - q,
{
    if q < a.len() {
        lemma_alike_from(a, b, q + 1);
        assert(alike(a[q], b[q]));
    }
}

/// The rows, places and lengths of a batch and the number of its decoding
/// requests do not depend on the caches.
pub proof fn law_caches_are_not_measured<C>(a: Seq<Request<C>>, b: Seq<Request<C>>)
    requires
        all_alike(a, b),
    ensures
        decodes_from(a, 0) == decodes_from(b, 0),
        longest_seq(a, a.len() as int) == longest_seq(b, b.len() as int),
        longest_att(a, a.len() as int) == longest_att(b, b.len() as int),
        places(a, a.len() as int) == places(b, b.len() as int),
        forall|r: int| 0 <= r <= a.len() ==> #[trigger] offset(a, r) == offset(b, r),
{
    lemma_alike_from(a, b, 0);
    lemma_alike_before(a, b, a.len() as int);
    assert forall|r: int| 0 <= r <= a.len() implies #[trigger] offset(a, r) == offset(b, r) by {
        lemma_alike_before(a, b, r);
    }
}

/// The order of a batch does not depend on the caches.
pub proof fn law_caches_do_not_order<C>(
    a: Seq<Request<C>>,
    b: Seq<Request<C>>,
    a_after: Seq<Request<C>>,
    b_after: Seq<Request<C>>,
)
    requires
        all_alike(a, b),
        put_decoding_first(a, a_after),
        put_decoding_first(b, b_after),
    ensures
        all_alike(a_after, b_after),
{
    lemma_decodes_bound(a, 0);
    lemma_alike_from(a, b, 0);
    let k = decodes_from(a, 0);
    assert forall|i: int| 0 <= i < a.len() implies alike(a_after[i], b_after[i]) by {
        assert(alike(a[i], b[i]));
        if i < k && !a[i].decodes() {
            let q = lemma_partner_behind(a, i);
            lemma_alike_before(a, b, i);
            lemma_alike_from(a, b, q + 1);
            assert(alike(a[q], b[q]));
            assert(exchanged(a, a_after, i, q) && exchanged(b, b_after, i, q));
        }
        if i >= k && a[i].decodes() {
            let p = lemma_partner_in_front(a, i);
            lemma_alike_before(a, b, p);
            lemma_alike_from(a, b, i + 1);
            assert(alike(a[p], b[p]));
            assert(exchanged(a, a_after, p, i) && exchanged(b, b_after, p, i));
        }
    }
}

} // verus!
