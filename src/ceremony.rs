//! The round-based coordination of key generation and signing: ceremony
//! parameters, the index-tagged sets that participants accumulate, the
//! single-use nonce slot, and the checks each round makes before the
//! cryptographic primitive is handed its inputs.

use vstd::prelude::*;
use vstd::seq_lib::seq_to_set_is_finite;
use vstd::set_lib::{lemma_int_range, lemma_subset_equality, set_int_range};
use crate::primitives::{
    expanded_public_key, is_public_key, public_key_of_secret, public_key_valid, signature_valid,
    verify_signature,
};

verus! {

/// Why a ceremony step was refused.
#[derive(Clone, Copy, Debug, PartialEq, Eq, Structural)]
pub enum CeremonyError {
    /// The secret key text is not 32 bytes of hexadecimal.
    InvalidSecretKey,
    /// The threshold is not within `1..=n`.
    InvalidThreshold,
    /// The recipient at this position is not a valid public key.
    InvalidRecipient(u16),
    /// The participant index is outside `1..=n`, or its key is not the
    /// recipient at that place.
    UnknownParticipant(u16),
    /// A set already holds an entry of this participant.
    DuplicateParticipant(u16),
    /// Some participant's contribution is missing.
    IncompleteContributionSet,
    /// A stored set or slot could not be read back.
    SerializationError,
    /// No nonce has been generated.
    MissingNonce,
    /// The nonce has already been used for a signing package.
    NonceAlreadyConsumed,
    /// Fewer than t commitments, or none of them is this participant's current one.
    InsufficientCommitments,
    /// Fewer than t signing packages.
    InsufficientPackages,
    /// The packages are not all over the same message.
    InconsistentPackages,
}

/// The deep view of a list of byte lists is the list of their views.
pub proof fn lemma_byte_lists_view(v: Vec<Vec<u8>>)
    ensures
        v.deep_view().len() == v@.len(),
        forall|k: int| 0 <= k < v@.len() ==> #[trigger] v.deep_view()[k] == v@[k]@,
{
    assert forall|k: int| 0 <= k < v@.len() implies #[trigger] v.deep_view()[k] == v@[k]@ by {
        assert(v@[k].deep_view() =~= v@[k]@);
    }
}

/// An index-tagged entry list: each participant index at most once.
pub open spec fn unique_indices(s: Seq<(u16, Seq<u8>)>) -> bool {
    forall|a: int, b: int| 0 <= a < b < s.len() ==> s[a].0 != s[b].0
}

/// Whether some entry carries index `i`.
pub open spec fn has_index(s: Seq<(u16, Seq<u8>)>, i: u16) -> bool {
    exists|k: int| 0 <= k < s.len() && s[k].0 == i
}

/// The payload of the entry with index `i` (meaningful where there is one).
pub open spec fn payload_for(s: Seq<(u16, Seq<u8>)>, i: u16) -> Seq<u8> {
    s[choose|k: int| 0 <= k < s.len() && s[k].0 == i].1
}

/// Every entry's index is a participant of a ceremony of `n`.
pub open spec fn indices_within(s: Seq<(u16, Seq<u8>)>, n: u16) -> bool {
    forall|k: int| 0 <= k < s.len() ==> 1 <= (#[trigger] s[k]).0 <= n
}

/// Every participant `1..=n` has an entry.
pub open spec fn covers_all(s: Seq<(u16, Seq<u8>)>, n: u16) -> bool {
    forall|i: u16| 1 <= i <= n ==> has_index(s, i)
}

/// The payloads of participants `1..=n`, in the order of their indices.
pub open spec fn payloads_by_index(s: Seq<(u16, Seq<u8>)>, n: nat) -> Seq<Seq<u8>> {
    Seq::new(n, |k: int| payload_for(s, (k + 1) as u16))
}

proof fn lemma_payload_for_at(s: Seq<(u16, Seq<u8>)>, k: int)
    requires
        unique_indices(s),
        0 <= k < s.len(),
    ensures
        has_index(s, s[k].0),
        payload_for(s, s[k].0) == s[k].1,
{
    let i = s[k].0;
    assert(0 <= k < s.len() && s[k].0 == i);
    let c = choose|c: int| 0 <= c < s.len() && s[c].0 == i;
    if c != k {
        if c < k {
            assert(s[c].0 != s[k].0);
        } else {
            assert(s[k].0 != s[c].0);
        }
    }
}

/// Entries tagged with participant indices, in the order they were added.
#[derive(Clone, Debug)]
pub struct IndexedSet {
    entries: Vec<(u16, Vec<u8>)>,
}

impl IndexedSet {
    /// The entries as (index, payload) pairs, in the order they were added.
    pub closed spec fn view(&self) -> Seq<(u16, Seq<u8>)> {
        self.entries@.map_values(|e: (u16, Vec<u8>)| (e.0, e.1@))
    }

    /// No index occurs twice.
    pub open spec fn wf(&self) -> bool {
        unique_indices(self.view())
    }

    /// The set with no entries.
    pub fn new() -> (r: Self)
        ensures
            r.wf(),
            r.view() == Seq::<(u16, Seq<u8>)>::empty(),
    {
        let r = IndexedSet { entries: Vec::new() };
        assert(r.view() =~= Seq::<(u16, Seq<u8>)>::empty());
        r
    }

    /// The number of entries.
    pub fn len(&self) -> (r: usize)
        ensures
            r == self.view().len(),
    {
        self.entries.len()
    }

    /// Where the entry of participant `index` stands, if there is one.
    pub fn position_of(&self, index: u16) -> (r: Option<usize>)
        requires
            self.wf(),
        ensures
            r is None <==> !has_index(self.view(), index),
            r is Some ==> r->Some_0 < self.view().len() && self.view()[r->Some_0 as int].0 == index,
    {
        let mut k: usize = 0;
        while k < self.entries.len()
            invariant
                k <= self.entries@.len(),
                self.view().len() == self.entries@.len(),
                forall|q: int| 0 <= q < k ==> self.view()[q].0 != index,
            decreases self.entries@.len() - k,
        {
            assert(self.view()[k as int].0 == self.entries@[k as int].0);
            if self.entries[k].0 == index {
                return Some(k);
            }
            k = k + 1;
        }
        None
    }

    /// The payload of participant `index`, if the set holds one.
    pub fn payload_of(&self, index: u16) -> (r: Option<&Vec<u8>>)
        requires
            self.wf(),
        ensures
            r is None <==> !has_index(self.view(), index),
            r is Some ==> r->Some_0@ == payload_for(self.view(), index),
    {
        match self.position_of(index) {
            Some(k) => {
                proof {
                    lemma_payload_for_at(self.view(), k as int);
                }
                Some(&self.entries[k].1)
            },
            None => None,
        }
    }

    /// Adds the entry of participant `index` unless the set already holds
    /// one; says whether it was added.
    pub fn insert_unique(&mut self, index: u16, payload: Vec<u8>) -> (r: bool)
        requires
            old(self).wf(),
        ensures
            final(self).wf(),
            r == !has_index(old(self).view(), index),
            r ==> final(self).view() == old(self).view().push((index, payload@)),
            !r ==> final(self).view() == old(self).view(),
    {
        if self.position_of(index).is_some() {
            return false;
        }
        let ghost before = self.view();
        self.entries.push((index, payload));
        proof {
            assert(self.view() =~= before.push((index, payload@)));
            assert forall|a: int, b: int| 0 <= a < b < self.view().len() implies self.view()[a].0 != self.view()[b].0 by {
                if b == before.len() {
                    assert(before[a].0 != index);
                }
            }
        }
        true
    }

    /// Adds the entry of participant `index`, one of `1..=n`, unless the set
    /// already holds one.
    pub fn record(&mut self, n: u16, index: u16, payload: Vec<u8>) -> (r: Result<(), CeremonyError>)
        requires
            old(self).wf(),
        ensures
            final(self).wf(),
            !(1 <= index <= n) ==> r == Err::<(), CeremonyError>(CeremonyError::UnknownParticipant(index))
                && final(self).view() == old(self).view(),
            1 <= index <= n && has_index(old(self).view(), index) ==> r == Err::<(), CeremonyError>(
                CeremonyError::DuplicateParticipant(index),
            ) && final(self).view() == old(self).view(),
            1 <= index <= n && !has_index(old(self).view(), index) ==> r is Ok
                && final(self).view() == old(self).view().push((index, payload@)),
    {
        if index < 1 || index > n {
            return Err(CeremonyError::UnknownParticipant(index));
        }
        if self.insert_unique(index, payload) {
            Ok(())
        } else {
            Err(CeremonyError::DuplicateParticipant(index))
        }
    }

    /// The payloads of participants `1..=n` in index order, where the set
    /// holds one for each of them.
    pub fn payloads_in_order(&self, n: u16) -> (r: Option<Vec<Vec<u8>>>)
        requires
            self.wf(),
        ensures
            covers_all(self.view(), n) <==> r is Some,
            r is Some ==> r->Some_0.deep_view() == payloads_by_index(self.view(), n as nat),
    {
        let mut out: Vec<Vec<u8>> = Vec::new();
        let mut i: u16 = 1;
        while i <= n
            invariant
                1 <= i,
                n == 0 || i <= n,
                i <= n + 1,
                self.wf(),
                out@.len() == i - 1,
                forall|q: u16| 1 <= q < i ==> has_index(self.view(), q),
                forall|k: int| 0 <= k < out@.len() ==> #[trigger] out@[k]@ == payload_for(self.view(), (k + 1) as u16),
            decreases n + 1 - i,
        {
            match self.payload_of(i) {
                Some(p) => {
                    let c = p.clone();
                    assert(c@ == p@);
                    out.push(c);
                },
                None => {
                    return None;
                },
            }
            if i == n {
                proof {
                    assert forall|k: int| 0 <= k < n as int implies #[trigger] out.deep_view()[k]
                        == payloads_by_index(self.view(), n as nat)[k] by {
                        assert(out@[k]@ == payload_for(self.view(), (k + 1) as u16));
                    }
                    assert(out.deep_view() =~= payloads_by_index(self.view(), n as nat));
                    assert forall|q: u16| 1 <= q <= n implies has_index(self.view(), q) by {
                        if q == n {
                        }
                    }
                }
                return Some(out);
            }
            i = i + 1;
        }
        assert(n == 0);
        assert(out@.len() == 0);
        assert(out.deep_view().len() == 0);
        assert(out.deep_view() =~= payloads_by_index(self.view(), n as nat));
        Some(out)
    }

    /// The payloads, in the order they were added.
    pub fn payloads_in_record_order(&self) -> (r: Vec<Vec<u8>>)
        ensures
            r.deep_view() == payloads(self.view()),
    {
        let mut out: Vec<Vec<u8>> = Vec::new();
        let mut k: usize = 0;
        while k < self.entries.len()
            invariant
                k <= self.entries@.len(),
                self.view().len() == self.entries@.len(),
                out@.len() == k,
                forall|q: int| 0 <= q < k ==> #[trigger] out@[q]@ == self.view()[q].1,
            decreases self.entries@.len() - k,
        {
            let c = self.entries[k].1.clone();
            assert(c@ == self.view()[k as int].1);
            out.push(c);
            k = k + 1;
        }
        proof {
            lemma_byte_lists_view(out);
            assert(out.deep_view() =~= payloads(self.view()));
        }
        out
    }

    /// The entries, in the order they were added.
    pub fn entries(&self) -> (r: &Vec<(u16, Vec<u8>)>)
        ensures
            r@.map_values(|e: (u16, Vec<u8>)| (e.0, e.1@)) == self.view(),
    {
        &self.entries
    }
}


/// What key-generation round 1 hands to the contribution primitive.
#[derive(Clone, Debug)]
pub struct ContributionRequest {
    /// The contributor's index, its place among the recipients counted from 1.
    pub participant: u16,
    pub threshold: u16,
    /// The contributor's 32-byte secret key.
    pub secret_key: [u8; 32],
    /// The public keys of all participants, the contributor's included.
    pub recipients: Vec<Vec<u8>>,
}

/// The first recipient, counted from 1, that is not a valid public key, or
/// 0 where all are valid.
pub open spec fn first_invalid_recipient(recipients: Seq<Seq<u8>>) -> int
    decreases recipients.len(),
{
    if recipients.len() == 0 {
        0
    } else if first_invalid_recipient(recipients.drop_last()) != 0 {
        first_invalid_recipient(recipients.drop_last())
    } else if !public_key_valid(recipients.last()) {
        recipients.len() as int
    } else {
        0
    }
}

/// The outcome of key-generation round 1 for `participant`, given the
/// threshold, its secret key and the recipients' public keys.
pub open spec fn contribution_outcome(
    participant: u16,
    threshold: u16,
    secret_key: Seq<u8>,
    recipients: Seq<Seq<u8>>,
) -> Result<(), CeremonyError> {
    let n = recipients.len();
    if !(n <= u16::MAX && 1 <= threshold && threshold <= n) {
        Err(CeremonyError::InvalidThreshold)
    } else if first_invalid_recipient(recipients) != 0 {
        Err(CeremonyError::InvalidRecipient(first_invalid_recipient(recipients) as u16))
    } else if !(1 <= participant && participant <= n) || recipients[participant - 1] != expanded_public_key(secret_key) {
        Err(CeremonyError::UnknownParticipant(participant))
    } else {
        Ok(())
    }
}

/// Key-generation round 1: checks the threshold against the recipients,
/// every recipient's public key, and that the participant's own key stands
/// at its place among them, then hands back what the contribution
/// primitive is to be called with.
pub fn prepare_contribution(
    participant: u16,
    threshold: u16,
    secret_key: [u8; 32],
    recipients: Vec<Vec<u8>>,
) -> (r: Result<ContributionRequest, CeremonyError>)
    ensures
        contribution_outcome(participant, threshold, secret_key@, recipients.deep_view()) is Err ==> r
            == Err::<ContributionRequest, CeremonyError>(
            contribution_outcome(participant, threshold, secret_key@, recipients.deep_view())->Err_0,
        ),
        contribution_outcome(participant, threshold, secret_key@, recipients.deep_view()) is Ok ==> r is Ok
            && r->Ok_0.participant == participant && r->Ok_0.threshold == threshold
            && r->Ok_0.secret_key@ == secret_key@ && r->Ok_0.recipients.deep_view()
            == recipients.deep_view(),
{
    let ghost keys = recipients.deep_view();
    proof {
        lemma_byte_lists_view(recipients);
    }
    let n = recipients.len();
    if !(n <= 65535 && 1 <= threshold && threshold as usize <= n) {
        return Err(CeremonyError::InvalidThreshold);
    }
    let mut k: usize = 0;
    while k < n
        invariant
            k <= n,
            n == recipients@.len(),
            n <= u16::MAX,
            1 <= threshold,
            threshold as usize <= n,
            keys == recipients.deep_view(),
            keys.len() == n,
            forall|q: int| 0 <= q < n ==> #[trigger] keys[q] == recipients@[q]@,
            first_invalid_recipient(keys.subrange(0, k as int)) == 0,
        decreases n - k,
    {
        let valid = is_public_key(recipients[k].as_slice());
        proof {
            let pre = keys.subrange(0, k as int + 1);
            assert(pre.drop_last() =~= keys.subrange(0, k as int));
            assert(pre.last() == recipients@[k as int]@);
        }
        if !valid {
            proof {
                assert(first_invalid_recipient(keys.subrange(0, k as int + 1)) == k + 1);
                lemma_first_invalid_extends(keys, k as int + 1);

            }
            return Err(CeremonyError::InvalidRecipient((k + 1) as u16));
        }
        k = k + 1;
    }
    assert(keys.subrange(0, n as int) =~= keys);
    let own = public_key_of_secret(&secret_key);
    if participant < 1 || participant as usize > n {
        return Err(CeremonyError::UnknownParticipant(participant));
    }
    if !same_bytes(recipients[participant as usize - 1].as_slice(), own.as_slice()) {
        return Err(CeremonyError::UnknownParticipant(participant));
    }
    Ok(ContributionRequest { participant, threshold, secret_key, recipients })
}

proof fn lemma_first_invalid_extends(keys: Seq<Seq<u8>>, k: int)
    requires
        0 <= k <= keys.len(),
        first_invalid_recipient(keys.subrange(0, k)) != 0,
    ensures
        first_invalid_recipient(keys) == first_invalid_recipient(keys.subrange(0, k)),
    decreases keys.len() - k,
{
    if k < keys.len() {
        let pre = keys.subrange(0, k + 1);
        assert(pre.drop_last() =~= keys.subrange(0, k));
        lemma_first_invalid_extends(keys, k + 1);
    } else {
        assert(keys.subrange(0, k) =~= keys);
    }
}

/// Whether two byte slices are equal.
pub fn same_bytes(a: &[u8], b: &[u8]) -> (r: bool)
    ensures
        r == (a@ == b@),
{
    if a.len() != b.len() {
        return false;
    }
    let mut i: usize = 0;
    while i < a.len()
        invariant
            i <= a@.len(),
            a@.len() == b@.len(),
            forall|k: int| 0 <= k < i ==> a@[k] == b@[k],
        decreases a@.len() - i,
    {
        if a[i] != b[i] {
            return false;
        }
        i = i + 1;
    }
    assert(a@ =~= b@);
    true
}

/// The outcome of key-generation round 2 over a contribution set of a
/// ceremony of `n`: the contributions of participants `1..=n`, in index order.
pub open spec fn receipt_outcome(s: Seq<(u16, Seq<u8>)>, n: u16) -> Result<Seq<Seq<u8>>, CeremonyError> {
    if !covers_all(s, n) {
        Err(CeremonyError::IncompleteContributionSet)
    } else {
        Ok(payloads_by_index(s, n as nat))
    }
}

/// Key-generation round 2: where every participant `1..=n` has contributed,
/// the contributions in index order, which the receiving primitive is to be
/// called with; never a partial set.
pub fn prepare_receipt(contributions: &IndexedSet, n: u16) -> (r: Result<Vec<Vec<u8>>, CeremonyError>)
    requires
        contributions.wf(),
    ensures
        match receipt_outcome(contributions.view(), n) {
            Ok(v) => r is Ok && r->Ok_0.deep_view() == v,
            Err(e) => r == Err::<Vec<Vec<u8>>, CeremonyError>(e),
        },
{
    match contributions.payloads_in_order(n) {
        Some(v) => Ok(v),
        None => Err(CeremonyError::IncompleteContributionSet),
    }
}

/// Whether two entry lists hold the same (index, payload) pairs.
pub open spec fn same_entries(a: Seq<(u16, Seq<u8>)>, b: Seq<(u16, Seq<u8>)>) -> bool {
    forall|e: (u16, Seq<u8>)| a.contains(e) <==> b.contains(e)
}

/// Key generation does not depend on the order in which contributions were
/// appended: two contribution sets that hold the same entries give every
/// participant the same round-2 outcome.
pub proof fn lemma_receipt_order_independent(a: Seq<(u16, Seq<u8>)>, b: Seq<(u16, Seq<u8>)>, n: u16)
    requires
        unique_indices(a),
        unique_indices(b),
        same_entries(a, b),
    ensures
        receipt_outcome(a, n) == receipt_outcome(b, n),
{
    assert forall|i: u16| has_index(a, i) <==> has_index(b, i) by {
        if has_index(a, i) {
            let k = choose|k: int| 0 <= k < a.len() && a[k].0 == i;
            assert(a.contains(a[k]));
            assert(b.contains(a[k]));
        }
        if has_index(b, i) {
            let k = choose|k: int| 0 <= k < b.len() && b[k].0 == i;
            assert(b.contains(b[k]));
            assert(a.contains(b[k]));
        }
    }
    assert forall|i: u16| has_index(a, i) implies payload_for(a, i) == payload_for(b, i) by {
        let k = choose|k: int| 0 <= k < a.len() && a[k].0 == i;
        lemma_payload_for_at(a, k);
        assert(a.contains(a[k]));
        assert(b.contains(a[k]));
        let j = choose|j: int| 0 <= j < b.len() && b[j] == a[k];
        lemma_payload_for_at(b, j);
    }
    if covers_all(a, n) {
        assert(covers_all(b, n));
        assert(payloads_by_index(a, n as nat) =~= payloads_by_index(b, n as nat)) by {
            assert forall|k: int| 0 <= k < n as int implies payloads_by_index(a, n as nat)[k]
                == payloads_by_index(b, n as nat)[k] by {
                assert(has_index(a, (k + 1) as u16));
            }
        }
    } else {
        assert(!covers_all(b, n));
    }
}

/// Key generation completes once every participant has contributed: a
/// contribution set that holds `n` entries, of distinct participants of a
/// ceremony of `n` (which is what `n` successful appends through `record`
/// leave), lets round 2 proceed for every participant.
pub proof fn lemma_contributions_complete(s: Seq<(u16, Seq<u8>)>, n: u16)
    requires
        unique_indices(s),
        indices_within(s, n),
        s.len() == n,
    ensures
        covers_all(s, n),
        receipt_outcome(s, n) == Ok::<Seq<Seq<u8>>, CeremonyError>(payloads_by_index(s, n as nat)),
{
    let idx = s.map_values(|e: (u16, Seq<u8>)| e.0 as int);
    assert(idx.no_duplicates()) by {
        assert forall|a: int, b: int| 0 <= a < idx.len() && 0 <= b < idx.len() && a != b implies idx[a] != idx[b] by {
            if a < b {
                assert(s[a].0 != s[b].0);
            } else {
                assert(s[b].0 != s[a].0);
            }
        }
    }
    idx.unique_seq_to_set();
    seq_to_set_is_finite(idx);
    let range = set_int_range(1, n as int + 1);
    lemma_int_range(1, n as int + 1);
    assert(idx.to_set().subset_of(range)) by {
        assert forall|x: int| idx.to_set().contains(x) implies range.contains(x) by {
            let k = choose|k: int| 0 <= k < idx.len() && idx[k] == x;
            assert(1 <= s[k].0 <= n);
        }
    }
    lemma_subset_equality(idx.to_set(), range);
    assert forall|i: u16| 1 <= i <= n implies has_index(s, i) by {
        assert(range.contains(i as int));
        assert(idx.to_set().contains(i as int));
        let k = choose|k: int| 0 <= k < idx.len() && idx[k] == i as int;
        assert(s[k].0 == i);
    }
}

/// The state of a participant's signing nonce.
pub ghost enum SlotState {
    Empty,
    Fresh { nonce: Seq<u8>, commitment: Seq<u8> },
    Consumed { commitment: Seq<u8> },
}

/// A participant's signing nonce: generated in signing round 1, used by
/// exactly one round 2, then kept only as the commitment it belonged to.
#[derive(Clone, Debug)]
pub enum NonceSlot {
    Empty,
    Fresh { nonce: Vec<u8>, commitment: Vec<u8> },
    Consumed { commitment: Vec<u8> },
}

impl NonceSlot {
    /// The slot's state.
    pub open spec fn view(&self) -> SlotState {
        match self {
            NonceSlot::Empty => SlotState::Empty,
            NonceSlot::Fresh { nonce, commitment } => SlotState::Fresh { nonce: nonce@, commitment: commitment@ },
            NonceSlot::Consumed { commitment } => SlotState::Consumed { commitment: commitment@ },
        }
    }

    /// Signing round 1: keeps a newly generated nonce and its commitment,
    /// in place of whatever the slot held.
    pub fn store(&mut self, nonce: Vec<u8>, commitment: Vec<u8>)
        ensures
            final(self).view() == (SlotState::Fresh { nonce: nonce@, commitment: commitment@ }),
    {
        *self = NonceSlot::Fresh { nonce, commitment };
    }
}

/// What signing round 2 hands to the signing primitive.
#[derive(Clone, Debug)]
pub struct SigningRequest {
    /// The unconsumed nonce.
    pub nonce: Vec<u8>,
    /// The commitments of the signers, in the order they were recorded.
    pub commitments: Vec<Vec<u8>>,
}

/// The payloads of a set in the order they were recorded.
pub open spec fn payloads(s: Seq<(u16, Seq<u8>)>) -> Seq<Seq<u8>> {
    s.map_values(|e: (u16, Seq<u8>)| e.1)
}

/// The outcome of signing round 2 for `participant` with threshold `t`.
pub open spec fn signing_outcome(slot: SlotState, participant: u16, t: u16, s: Seq<(u16, Seq<u8>)>) -> Result<
    (Seq<u8>, Seq<Seq<u8>>),
    CeremonyError,
> {
    match slot {
        SlotState::Empty => Err(CeremonyError::MissingNonce),
        SlotState::Consumed { .. } => Err(CeremonyError::NonceAlreadyConsumed),
        SlotState::Fresh { nonce, commitment } => {
            if s.len() < t || !has_index(s, participant) || payload_for(s, participant) != commitment {
                Err(CeremonyError::InsufficientCommitments)
            } else {
                Ok((nonce, payloads(s)))
            }
        },
    }
}

/// The slot after signing round 2: consumed where the round succeeded,
/// unchanged where it failed.
pub open spec fn slot_after_signing(slot: SlotState, participant: u16, t: u16, s: Seq<(u16, Seq<u8>)>) -> SlotState {
    match slot {
        SlotState::Fresh { nonce, commitment } => if signing_outcome(slot, participant, t, s) is Ok {
            SlotState::Consumed { commitment }
        } else {
            slot
        },
        _ => slot,
    }
}

/// Signing round 2: uses the participant's nonce once, provided the
/// commitment set holds at least `t` entries, this participant's current
/// commitment among them.
pub fn prepare_signing(slot: &mut NonceSlot, participant: u16, t: u16, commitments: &IndexedSet) -> (r: Result<
    SigningRequest,
    CeremonyError,
>)
    requires
        commitments.wf(),
    ensures
        final(slot).view() == slot_after_signing(old(slot).view(), participant, t, commitments.view()),
        match signing_outcome(old(slot).view(), participant, t, commitments.view()) {
            Ok((nonce, list)) => r is Ok && r->Ok_0.nonce@ == nonce && r->Ok_0.commitments.deep_view() == list,
            Err(e) => r == Err::<SigningRequest, CeremonyError>(e),
        },
{
    let (nonce, commitment) = match slot {
        NonceSlot::Empty => {
            return Err(CeremonyError::MissingNonce);
        },
        NonceSlot::Consumed { .. } => {
            return Err(CeremonyError::NonceAlreadyConsumed);
        },
        NonceSlot::Fresh { nonce, commitment } => (nonce.clone(), commitment.clone()),
    };
    if commitments.len() < t as usize {
        return Err(CeremonyError::InsufficientCommitments);
    }
    match commitments.payload_of(participant) {
        None => {
            return Err(CeremonyError::InsufficientCommitments);
        },
        Some(own) => {
            if !same_bytes(own.as_slice(), commitment.as_slice()) {
                return Err(CeremonyError::InsufficientCommitments);
            }
        },
    }
    let list = commitments.payloads_in_record_order();
    *slot = NonceSlot::Consumed { commitment };
    Ok(SigningRequest { nonce, commitments: list })
}

/// A signing nonce serves one signing package only: after a successful
/// signing round 2, another round 2 on the same slot fails with
/// `NonceAlreadyConsumed`, whatever commitment set it is given.
pub proof fn lemma_nonce_single_use(
    slot: SlotState,
    participant: u16,
    t: u16,
    s: Seq<(u16, Seq<u8>)>,
    later: Seq<(u16, Seq<u8>)>,
)
    requires
        signing_outcome(slot, participant, t, s) is Ok,
    ensures
        signing_outcome(slot_after_signing(slot, participant, t, s), participant, t, later)
            == Err::<(Seq<u8>, Seq<Seq<u8>>), CeremonyError>(CeremonyError::NonceAlreadyConsumed),
{
}

/// A nonce whose commitment is not the one that the commitment set holds
/// for its participant (a commitment of an earlier round 1, or none at all)
/// is never consumed: signing round 2 fails with `InsufficientCommitments`
/// and the slot keeps the nonce.
pub proof fn lemma_stale_commitment_refused(
    nonce: Seq<u8>,
    commitment: Seq<u8>,
    participant: u16,
    t: u16,
    s: Seq<(u16, Seq<u8>)>,
)
    requires
        has_index(s, participant) ==> payload_for(s, participant) != commitment,
    ensures
        signing_outcome(SlotState::Fresh { nonce, commitment }, participant, t, s)
            == Err::<(Seq<u8>, Seq<Seq<u8>>), CeremonyError>(CeremonyError::InsufficientCommitments),
        slot_after_signing(SlotState::Fresh { nonce, commitment }, participant, t, s) == (SlotState::Fresh {
            nonce,
            commitment,
        }),
{
}

/// The signing packages of one ceremony, all over one message.
#[derive(Clone, Debug)]
pub struct PackageSet {
    message: Vec<u8>,
    packages: IndexedSet,
}

impl PackageSet {
    /// The message that every package was made over.
    pub closed spec fn message(&self) -> Seq<u8> {
        self.message@
    }

    /// The packages, index-tagged, in the order they were recorded.
    pub closed spec fn view(&self) -> Seq<(u16, Seq<u8>)> {
        self.packages.view()
    }

    /// No participant index occurs twice.
    pub closed spec fn wf(&self) -> bool {
        self.packages.wf()
    }

    /// No packages yet.
    pub fn new() -> (r: Self)
        ensures
            r.wf(),
            r.view() == Seq::<(u16, Seq<u8>)>::empty(),
    {
        PackageSet { message: Vec::new(), packages: IndexedSet::new() }
    }

    /// A set read back from storage.
    pub fn from_parts(message: Vec<u8>, packages: IndexedSet) -> (r: Self)
        requires
            packages.wf(),
        ensures
            r.wf(),
            r.view() == packages.view(),
            r.message() == message@,
    {
        PackageSet { message, packages }
    }

    /// The message, as stored.
    pub fn message_bytes(&self) -> (r: &Vec<u8>)
        ensures
            r@ == self.message(),
    {
        &self.message
    }

    /// The index-tagged packages.
    pub fn packages(&self) -> (r: &IndexedSet)
        requires
            self.wf(),
        ensures
            r.view() == self.view(),
            r.wf(),
    {
        &self.packages
    }

    /// The number of packages.
    pub fn len(&self) -> (r: usize)
        ensures
            r == self.view().len(),
    {
        self.packages.len()
    }

    /// Records participant `index`'s package over `message`; the first
    /// package fixes the message, and every later one must be over it too.
    pub fn record(&mut self, n: u16, index: u16, package: Vec<u8>, message: &Vec<u8>) -> (r: Result<(), CeremonyError>)
        requires
            old(self).wf(),
        ensures
            final(self).wf(),
            old(self).view().len() > 0 && message@ != old(self).message() ==> r == Err::<(), CeremonyError>(
                CeremonyError::InconsistentPackages,
            ) && final(self).view() == old(self).view(),
            !(old(self).view().len() > 0 && message@ != old(self).message()) && !(1 <= index <= n) ==> r
                == Err::<(), CeremonyError>(CeremonyError::UnknownParticipant(index)) && final(self).view()
                == old(self).view(),
            !(old(self).view().len() > 0 && message@ != old(self).message()) && 1 <= index <= n
                && has_index(old(self).view(), index) ==> r == Err::<(), CeremonyError>(
                CeremonyError::DuplicateParticipant(index),
            ) && final(self).view() == old(self).view(),
            !(old(self).view().len() > 0 && message@ != old(self).message()) && 1 <= index <= n
                && !has_index(old(self).view(), index) ==> r is Ok && final(self).view() == old(self).view().push(
                (index, package@),
            ) && final(self).message() == message@,
    {
        if self.packages.len() > 0 && !same_bytes(self.message.as_slice(), message.as_slice()) {
            return Err(CeremonyError::InconsistentPackages);
        }
        let result = self.packages.record(n, index, package);
        if result.is_ok() {
            self.message = message.clone();
        }
        result
    }

    /// Aggregation's check: at least `t` packages. Hands back the packages
    /// in the order they were recorded, which the aggregating primitive is
    /// to be called with.
    pub fn aggregation_input(&self, t: u16) -> (r: Result<Vec<Vec<u8>>, CeremonyError>)
        requires
            self.wf(),
        ensures
            self.view().len() < t ==> r == Err::<Vec<Vec<u8>>, CeremonyError>(CeremonyError::InsufficientPackages),
            self.view().len() >= t ==> r is Ok && r->Ok_0.deep_view() == payloads(self.view()),
    {
        if self.packages.len() < t as usize {
            return Err(CeremonyError::InsufficientPackages);
        }
        Ok(self.packages.payloads_in_record_order())
    }
}

/// Whether an aggregate signature verifies against the group public key
/// and the message to sign, as a single-key signature in `context`.
pub fn verify_group_signature(group_key: &[u8], context: &[u8], message: &[u8], signature: &[u8]) -> (r: bool)
    ensures
        r == signature_valid(group_key@, context@, message@, signature@),
        group_key@.len() != 32 || signature@.len() != 64 ==> !r,
{
    verify_signature(group_key, context, message, signature)
}

} // verus!
