//! How the ceremony's artifacts are stored: each set as a JSON list of byte
//! lists, each entry framed with its participant index, and the secret key
//! as a JSON string of hexadecimal digits.

use vstd::prelude::*;
use crate::ceremony::{
    lemma_byte_lists_view, CeremonyError, IndexedSet, NonceSlot, PackageSet, SlotState,
    unique_indices,
};
use crate::primitives::{
    byte_lists_from_json, byte_lists_of_json, byte_lists_to_json, bytes_from_json, bytes_of_json,
    bytes_to_json, decode_hex, hex_text_bytes, is_hex_text, json_of_byte_lists, json_of_bytes,
    string_from_json, string_of_json,
};

verus! {

/// An entry as stored: the index in two big-endian bytes, then the payload.
pub open spec fn frame(e: (u16, Seq<u8>)) -> Seq<u8> {
    seq![(e.0 / 256) as u8, (e.0 % 256) as u8] + e.1
}

/// The stored form of a list of entries.
pub open spec fn framed(s: Seq<(u16, Seq<u8>)>) -> Seq<Seq<u8>> {
    s.map_values(|e: (u16, Seq<u8>)| frame(e))
}

/// The entry that a frame of at least two bytes holds.
pub open spec fn unframe(b: Seq<u8>) -> (u16, Seq<u8>) {
    ((b[0] as int * 256 + b[1] as int) as u16, b.subrange(2, b.len() as int))
}

/// The entries that stored frames hold: every frame has its two index
/// bytes, and no index occurs twice.
pub open spec fn entries_of_frames(v: Seq<Seq<u8>>) -> Option<Seq<(u16, Seq<u8>)>> {
    if (forall|k: int| 0 <= k < v.len() ==> (#[trigger] v[k]).len() >= 2) && unique_indices(
        v.map_values(|b: Seq<u8>| unframe(b)),
    ) {
        Some(v.map_values(|b: Seq<u8>| unframe(b)))
    } else {
        None
    }
}

/// Reading back what was framed gives the same entries.
pub proof fn lemma_frames_round_trip(s: Seq<(u16, Seq<u8>)>)
    requires
        unique_indices(s),
    ensures
        entries_of_frames(framed(s)) == Some(s),
{
    let v = framed(s);
    assert forall|k: int| 0 <= k < v.len() implies #[trigger] unframe(v[k]) == s[k] by {
        let e = s[k];
        let b = frame(e);
        assert(b.subrange(2, b.len() as int) =~= e.1);
        assert(((e.0 / 256) as u8) as int * 256 + ((e.0 % 256) as u8) as int == e.0 as int);
    }
    assert(v.map_values(|b: Seq<u8>| unframe(b)) =~= s);
}

fn copy_tail(b: &Vec<u8>, start: usize) -> (r: Vec<u8>)
    requires
        start <= b@.len(),
    ensures
        r@ == b@.subrange(start as int, b@.len() as int),
{
    let mut r: Vec<u8> = Vec::new();
    let mut i: usize = start;
    while i < b.len()
        invariant
            start <= i <= b@.len(),
            r@ == b@.subrange(start as int, i as int),
        decreases b@.len() - i,
    {
        r.push(b[i]);
        assert(b@.subrange(start as int, i as int + 1) =~= b@.subrange(start as int, i as int).push(b@[i as int]));
        i = i + 1;
    }
    r
}

fn frame_entry(index: u16, payload: &Vec<u8>) -> (r: Vec<u8>)
    ensures
        r@ == frame((index, payload@)),
{
    let mut r: Vec<u8> = Vec::new();
    r.push((index / 256) as u8);
    r.push((index % 256) as u8);
    let mut i: usize = 0;
    while i < payload.len()
        invariant
            i <= payload@.len(),
            r@ == seq![(index / 256) as u8, (index % 256) as u8] + payload@.subrange(0, i as int),
        decreases payload@.len() - i,
    {
        r.push(payload[i]);
        assert(payload@.subrange(0, i as int + 1) =~= payload@.subrange(0, i as int).push(payload@[i as int]));
        i = i + 1;
    }
    assert(payload@.subrange(0, payload@.len() as int) =~= payload@);
    r
}

fn frames_of(set: &IndexedSet) -> (r: Vec<Vec<u8>>)
    ensures
        r.deep_view() == framed(set.view()),
{
    let entries = set.entries();
    let ghost es = entries@.map_values(|e: (u16, Vec<u8>)| (e.0, e.1@));
    let mut out: Vec<Vec<u8>> = Vec::new();
    let mut k: usize = 0;
    while k < entries.len()
        invariant
            k <= entries@.len(),
            es == set.view(),
            es == entries@.map_values(|e: (u16, Vec<u8>)| (e.0, e.1@)),
            out@.len() == k,
            forall|q: int| 0 <= q < k ==> #[trigger] out@[q]@ == frame(es[q]),
        decreases entries@.len() - k,
    {
        let f = frame_entry(entries[k].0, &entries[k].1);
        out.push(f);
        k = k + 1;
    }
    proof {
        lemma_byte_lists_view(out);
        assert(out.deep_view() =~= framed(set.view()));
    }
    out
}

fn entries_from_frames(v: &Vec<Vec<u8>>) -> (r: Option<IndexedSet>)
    ensures
        match entries_of_frames(v.deep_view()) {
            Some(s) => r is Some && r->Some_0.wf() && r->Some_0.view() == s,
            None => r is None,
        },
{
    proof {
        lemma_byte_lists_view(*v);
    }
    let ghost dv = v.deep_view();
    let ghost m = dv.map_values(|b: Seq<u8>| unframe(b));
    let mut set = IndexedSet::new();
    let mut k: usize = 0;
    while k < v.len()
        invariant
            k <= v@.len(),
            dv == v.deep_view(),
            dv.len() == v@.len(),
            forall|q: int| 0 <= q < v@.len() ==> #[trigger] dv[q] == v@[q]@,
            m == dv.map_values(|b: Seq<u8>| unframe(b)),
            set.wf(),
            set.view() == m.subrange(0, k as int),
            forall|q: int| 0 <= q < k ==> (#[trigger] dv[q]).len() >= 2,
        decreases v@.len() - k,
    {
        let b = &v[k];
        if b.len() < 2 {
            proof {
                assert(dv[k as int].len() < 2);
            }
            return None;
        }
        let index = b[0] as u16 * 256 + b[1] as u16;
        let payload = copy_tail(b, 2);
        assert(m[k as int] == (index, payload@));
        let ghost before = set.view();
        if !set.insert_unique(index, payload) {
            proof {
                let j = choose|j: int| 0 <= j < before.len() && before[j].0 == index;
                assert(m[j].0 == m[k as int].0);
                assert(!unique_indices(m));
            }
            return None;
        }
        assert(set.view() =~= m.subrange(0, k as int + 1));
        k = k + 1;
    }
    assert(m.subrange(0, k as int) =~= m);
    Some(set)
}

/// The JSON text of an index-tagged set.
pub open spec fn set_text(s: Seq<(u16, Seq<u8>)>) -> Seq<char> {
    json_of_byte_lists(framed(s))
}

/// The set that a stored text holds, if it is well formed.
pub open spec fn set_of_text(text: Seq<char>) -> Option<Seq<(u16, Seq<u8>)>> {
    match byte_lists_of_json(text) {
        Some(v) => entries_of_frames(v),
        None => None,
    }
}

/// The stored text of a set.
pub fn encode_set(set: &IndexedSet) -> (r: String)
    ensures
        r@ == set_text(set.view()),
{
    byte_lists_to_json(&frames_of(set))
}

/// Reads a set back from its stored text; a text that is not such a set is
/// refused, never repaired.
pub fn decode_set(text: &str) -> (r: Result<IndexedSet, CeremonyError>)
    ensures
        match set_of_text(text@) {
            Some(s) => r is Ok && r->Ok_0.wf() && r->Ok_0.view() == s,
            None => r == Err::<IndexedSet, CeremonyError>(CeremonyError::SerializationError),
        },
        forall|s: Seq<(u16, Seq<u8>)>| unique_indices(s) && text@ == set_text(s) ==> r is Ok && r->Ok_0.view() == s,
{
    let lists = byte_lists_from_json(text);
    proof {
        assert forall|s: Seq<(u16, Seq<u8>)>| unique_indices(s) && text@ == set_text(s) implies set_of_text(text@) == Some(s) by {
            lemma_frames_round_trip(s);
        }
    }
    match lists {
        None => Err(CeremonyError::SerializationError),
        Some(v) => match entries_from_frames(&v) {
            Some(set) => Ok(set),
            None => Err(CeremonyError::SerializationError),
        },
    }
}

/// The byte lists that store a nonce slot: a one-byte tag, then the nonce
/// and the commitment that the state holds.
pub open spec fn slot_lists(st: SlotState) -> Seq<Seq<u8>> {
    match st {
        SlotState::Empty => seq![seq![0u8]],
        SlotState::Fresh { nonce, commitment } => seq![seq![1u8], nonce, commitment],
        SlotState::Consumed { commitment } => seq![seq![2u8], commitment],
    }
}

/// The slot state that stored byte lists hold, if they are well formed.
pub open spec fn slot_of_lists(v: Seq<Seq<u8>>) -> Option<SlotState> {
    if v.len() == 1 && v[0] == seq![0u8] {
        Some(SlotState::Empty)
    } else if v.len() == 3 && v[0] == seq![1u8] {
        Some(SlotState::Fresh { nonce: v[1], commitment: v[2] })
    } else if v.len() == 2 && v[0] == seq![2u8] {
        Some(SlotState::Consumed { commitment: v[1] })
    } else {
        None
    }
}

/// Reading back a stored slot gives the same state.
pub proof fn lemma_slot_round_trip(st: SlotState)
    ensures
        slot_of_lists(slot_lists(st)) == Some(st),
{
}

fn tag_is(b: &Vec<u8>, tag: u8) -> (r: bool)
    ensures
        r == (b@ == seq![tag]),
{
    let r = b.len() == 1 && b[0] == tag;
    proof {
        if b@.len() == 1 && b@[0] == tag {
            assert(b@ =~= seq![tag]);
        }
    }
    r
}

fn tag_bytes(tag: u8) -> (r: Vec<u8>)
    ensures
        r@ == seq![tag],
{
    let mut r: Vec<u8> = Vec::new();
    r.push(tag);
    assert(r@ =~= seq![tag]);
    r
}

/// The stored text of a nonce slot.
pub fn encode_slot(slot: &NonceSlot) -> (r: String)
    ensures
        r@ == json_of_byte_lists(slot_lists(slot.view())),
{
    let mut v: Vec<Vec<u8>> = Vec::new();
    match slot {
        NonceSlot::Empty => {
            v.push(tag_bytes(0));
        },
        NonceSlot::Fresh { nonce, commitment } => {
            v.push(tag_bytes(1));
            v.push(nonce.clone());
            v.push(commitment.clone());
        },
        NonceSlot::Consumed { commitment } => {
            v.push(tag_bytes(2));
            v.push(commitment.clone());
        },
    }
    proof {
        lemma_byte_lists_view(v);
        assert(v.deep_view() =~= slot_lists(slot.view()));
    }
    byte_lists_to_json(&v)
}

/// Reads a nonce slot back from its stored text.
pub fn decode_slot(text: &str) -> (r: Result<NonceSlot, CeremonyError>)
    ensures
        match byte_lists_of_json(text@) {
            Some(v) => match slot_of_lists(v) {
                Some(st) => r is Ok && r->Ok_0.view() == st,
                None => r == Err::<NonceSlot, CeremonyError>(CeremonyError::SerializationError),
            },
            None => r == Err::<NonceSlot, CeremonyError>(CeremonyError::SerializationError),
        },
        forall|st: SlotState| text@ == json_of_byte_lists(slot_lists(st)) ==> r is Ok && r->Ok_0.view() == st,
{
    let lists = byte_lists_from_json(text);
    match lists {
        None => Err(CeremonyError::SerializationError),
        Some(v) => {
            proof {
                lemma_byte_lists_view(v);
            }
            if v.len() == 1 && tag_is(&v[0], 0) {
                Ok(NonceSlot::Empty)
            } else if v.len() == 3 && tag_is(&v[0], 1) {
                Ok(NonceSlot::Fresh { nonce: v[1].clone(), commitment: v[2].clone() })
            } else if v.len() == 2 && tag_is(&v[0], 2) {
                Ok(NonceSlot::Consumed { commitment: v[1].clone() })
            } else {
                Err(CeremonyError::SerializationError)
            }
        },
    }
}

/// The byte lists that store a package set: the message, then the framed
/// packages.
pub open spec fn package_lists(message: Seq<u8>, s: Seq<(u16, Seq<u8>)>) -> Seq<Seq<u8>> {
    seq![message] + framed(s)
}

/// The stored text of a package set.
pub fn encode_packages(set: &PackageSet) -> (r: String)
    requires
        set.wf(),
    ensures
        r@ == json_of_byte_lists(package_lists(set.message(), set.view())),
{
    let frames = frames_of(set.packages());
    let mut v: Vec<Vec<u8>> = Vec::new();
    v.push(set.message_bytes().clone());
    let mut k: usize = 0;
    proof {
        lemma_byte_lists_view(frames);
    }
    while k < frames.len()
        invariant
            k <= frames@.len(),
            frames.deep_view() == framed(set.view()),
            frames.deep_view().len() == frames@.len(),
            forall|q: int| 0 <= q < frames@.len() ==> #[trigger] frames.deep_view()[q] == frames@[q]@,
            v@.len() == k + 1,
            v@[0]@ == set.message(),
            forall|q: int| 1 <= q < k + 1 ==> #[trigger] v@[q]@ == frames@[q - 1]@,
        decreases frames@.len() - k,
    {
        v.push(frames[k].clone());
        k = k + 1;
    }
    proof {
        lemma_byte_lists_view(v);
        assert(v.deep_view() =~= package_lists(set.message(), set.view()));
    }
    byte_lists_to_json(&v)
}

/// Reads a package set back from its stored text.
pub fn decode_packages(text: &str) -> (r: Result<PackageSet, CeremonyError>)
    ensures
        match byte_lists_of_json(text@) {
            Some(v) => if v.len() >= 1 && entries_of_frames(v.drop_first()) is Some {
                r is Ok && r->Ok_0.wf() && r->Ok_0.message() == v[0] && r->Ok_0.view() == entries_of_frames(
                    v.drop_first(),
                )->Some_0
            } else {
                r == Err::<PackageSet, CeremonyError>(CeremonyError::SerializationError)
            },
            None => r == Err::<PackageSet, CeremonyError>(CeremonyError::SerializationError),
        },
        forall|m: Seq<u8>, s: Seq<(u16, Seq<u8>)>|
            unique_indices(s) && text@ == json_of_byte_lists(package_lists(m, s)) ==> r is Ok
                && r->Ok_0.message() == m && r->Ok_0.view() == s,
{
    let lists = byte_lists_from_json(text);
    proof {
        assert forall|m: Seq<u8>, s: Seq<(u16, Seq<u8>)>|
            unique_indices(s) && text@ == json_of_byte_lists(package_lists(m, s)) implies byte_lists_of_json(text@)
            == Some(package_lists(m, s)) && entries_of_frames(package_lists(m, s).drop_first()) == Some(s)
            && package_lists(m, s)[0] == m by {
            assert(package_lists(m, s).drop_first() =~= framed(s));
            lemma_frames_round_trip(s);
        }
    }
    match lists {
        None => Err(CeremonyError::SerializationError),
        Some(v) => {
            proof {
                lemma_byte_lists_view(v);
            }
            if v.len() < 1 {
                return Err(CeremonyError::SerializationError);
            }
            let message = v[0].clone();
            let mut rest: Vec<Vec<u8>> = Vec::new();
            let mut k: usize = 1;
            while k < v.len()
                invariant
                    1 <= k <= v@.len(),
                    v.deep_view().len() == v@.len(),
                    forall|q: int| 0 <= q < v@.len() ==> #[trigger] v.deep_view()[q] == v@[q]@,
                    rest@.len() == k - 1,
                    forall|q: int| 0 <= q < k - 1 ==> #[trigger] rest@[q]@ == v@[q + 1]@,
                decreases v@.len() - k,
            {
                rest.push(v[k].clone());
                k = k + 1;
            }
            proof {
                lemma_byte_lists_view(rest);
                assert(rest.deep_view() =~= v.deep_view().drop_first());
            }
            match entries_from_frames(&rest) {
                Some(set) => Ok(PackageSet::from_parts(message, set)),
                None => Err(CeremonyError::SerializationError),
            }
        },
    }
}

/// The stored text of a single byte list (a group key, a signature).
pub fn encode_bytes(v: &Vec<u8>) -> (r: String)
    ensures
        r@ == json_of_bytes(v@),
{
    bytes_to_json(v)
}

/// Reads a single byte list back from its stored text.
pub fn decode_bytes(text: &str) -> (r: Result<Vec<u8>, CeremonyError>)
    ensures
        match bytes_of_json(text@) {
            Some(v) => r is Ok && r->Ok_0@ == v,
            None => r == Err::<Vec<u8>, CeremonyError>(CeremonyError::SerializationError),
        },
        forall|v: Seq<u8>| text@ == json_of_bytes(v) ==> r is Ok && r->Ok_0@ == v,
{
    match bytes_from_json(text) {
        Some(v) => Ok(v),
        None => Err(CeremonyError::SerializationError),
    }
}

/// The stored text of a plain list of byte lists (the recipients' public keys).
pub fn encode_byte_lists(v: &Vec<Vec<u8>>) -> (r: String)
    ensures
        r@ == json_of_byte_lists(v.deep_view()),
{
    byte_lists_to_json(v)
}

/// Reads a plain list of byte lists back from its stored text.
pub fn decode_byte_lists(text: &str) -> (r: Result<Vec<Vec<u8>>, CeremonyError>)
    ensures
        match byte_lists_of_json(text@) {
            Some(v) => r is Ok && r->Ok_0.deep_view() == v,
            None => r == Err::<Vec<Vec<u8>>, CeremonyError>(CeremonyError::SerializationError),
        },
        forall|v: Seq<Seq<u8>>| text@ == json_of_byte_lists(v) ==> r is Ok && r->Ok_0.deep_view() == v,
{
    match byte_lists_from_json(text) {
        Some(v) => Ok(v),
        None => Err(CeremonyError::SerializationError),
    }
}

/// The bytes that store the ceremony parameters: the threshold, then the
/// number of participants, each in two big-endian bytes.
pub open spec fn parameter_bytes(threshold: u16, participants: u16) -> Seq<u8> {
    seq![(threshold / 256) as u8, (threshold % 256) as u8, (participants / 256) as u8, (participants % 256) as u8]
}

/// The stored text of the ceremony parameters `(t, n)`.
pub fn encode_parameters(threshold: u16, participants: u16) -> (r: String)
    ensures
        r@ == json_of_bytes(parameter_bytes(threshold, participants)),
{
    let mut v: Vec<u8> = Vec::new();
    v.push((threshold / 256) as u8);
    v.push((threshold % 256) as u8);
    v.push((participants / 256) as u8);
    v.push((participants % 256) as u8);
    assert(v@ =~= parameter_bytes(threshold, participants));
    bytes_to_json(&v)
}

/// Reads the ceremony parameters `(t, n)` back; they must satisfy
/// `1 <= t <= n`.
pub fn decode_parameters(text: &str) -> (r: Result<(u16, u16), CeremonyError>)
    ensures
        forall|t: u16, n: u16| 1 <= t <= n && text@ == json_of_bytes(parameter_bytes(t, n)) ==> r == Ok::<
            (u16, u16),
            CeremonyError,
        >((t, n)),
        r is Ok ==> 1 <= r->Ok_0.0 <= r->Ok_0.1,
{
    let v = match bytes_from_json(text) {
        Some(v) => v,
        None => {
            return Err(CeremonyError::SerializationError);
        },
    };
    if v.len() != 4 {
        return Err(CeremonyError::SerializationError);
    }
    let t = v[0] as u16 * 256 + v[1] as u16;
    let n = v[2] as u16 * 256 + v[3] as u16;
    proof {
        assert forall|a: u16, b: u16| 1 <= a <= b && text@ == json_of_bytes(parameter_bytes(a, b)) implies t == a && n == b by {
            assert(v@ == parameter_bytes(a, b));
            assert(((a / 256) as u8) as int * 256 + ((a % 256) as u8) as int == a as int);
            assert(((b / 256) as u8) as int * 256 + ((b % 256) as u8) as int == b as int);
        }
    }
    if t < 1 || t > n {
        return Err(CeremonyError::InvalidThreshold);
    }
    Ok((t, n))
}

/// Whether `c` has the Unicode White_Space property.
pub open spec fn is_white_space(c: char) -> bool {
    ('\u{9}' <= c && c <= '\u{d}') || c == ' ' || c == '\u{85}' || c == '\u{a0}' || c == '\u{1680}'
        || ('\u{2000}' <= c && c <= '\u{200a}') || c == '\u{2028}' || c == '\u{2029}' || c == '\u{202f}'
        || c == '\u{205f}' || c == '\u{3000}'
}

fn white_space(c: char) -> (r: bool)
    ensures
        r == is_white_space(c),
{
    ('\u{9}' <= c && c <= '\u{d}') || c == ' ' || c == '\u{85}' || c == '\u{a0}' || c == '\u{1680}'
        || ('\u{2000}' <= c && c <= '\u{200a}') || c == '\u{2028}' || c == '\u{2029}' || c == '\u{202f}'
        || c == '\u{205f}' || c == '\u{3000}'
}

/// `s` without its leading white space.
pub open spec fn trim_start(s: Seq<char>) -> Seq<char>
    decreases s.len(),
{
    if s.len() > 0 && is_white_space(s[0]) {
        trim_start(s.drop_first())
    } else {
        s
    }
}

/// `s` without its trailing white space.
pub open spec fn trim_end(s: Seq<char>) -> Seq<char>
    decreases s.len(),
{
    if s.len() > 0 && is_white_space(s.last()) {
        trim_end(s.drop_last())
    } else {
        s
    }
}

/// `s` without its leading and trailing white space.
pub open spec fn trimmed(s: Seq<char>) -> Seq<char> {
    trim_end(trim_start(s))
}

/// `s` without a leading `0x`.
pub open spec fn without_0x(s: Seq<char>) -> Seq<char> {
    if s.len() >= 2 && s[0] == '0' && s[1] == 'x' {
        s.subrange(2, s.len() as int)
    } else {
        s
    }
}

/// The 32-byte secret key that a text of hexadecimal digits holds: white
/// space around it and a leading `0x` are allowed.
pub open spec fn secret_key_of_hex(s: Seq<char>) -> Option<Seq<u8>> {
    let t = without_0x(trimmed(s));
    if is_hex_text(t) && t.len() == 64 {
        Some(hex_text_bytes(t))
    } else {
        None
    }
}

fn trim_white_space(s: &str) -> (r: &str)
    ensures
        r@ == trimmed(s@),
{
    let n = s.unicode_len();
    let mut a: usize = 0;
    assert(s@.subrange(0, n as int) =~= s@);
    while a < n && white_space(s.get_char(a))
        invariant
            a <= n,
            n == s@.len(),
            trim_start(s@) == trim_start(s@.subrange(a as int, n as int)),
        decreases n - a,
    {
        assert(s@.subrange(a as int, n as int).drop_first() =~= s@.subrange(a as int + 1, n as int));
        a = a + 1;
    }
    let t = s.substring_char(a, n);
    assert(trim_start(t@) == t@);
    let mut b: usize = t.unicode_len();
    assert(t@.subrange(0, b as int) =~= t@);
    while b > 0 && white_space(t.get_char(b - 1))
        invariant
            b <= t@.len(),
            trim_end(t@) == trim_end(t@.subrange(0, b as int)),
        decreases b,
    {
        assert(t@.subrange(0, b as int).drop_last() =~= t@.subrange(0, b as int - 1));
        b = b - 1;
    }
    assert(trim_end(t@.subrange(0, b as int)) == t@.subrange(0, b as int));
    t.substring_char(0, b)
}

/// Reads a 32-byte secret key from hexadecimal text, with white space
/// around it and a leading `0x` allowed.
pub fn secret_key_from_hex(s: &str) -> (r: Result<[u8; 32], CeremonyError>)
    ensures
        match secret_key_of_hex(s@) {
            Some(k) => r is Ok && r->Ok_0@ == k,
            None => r == Err::<[u8; 32], CeremonyError>(CeremonyError::InvalidSecretKey),
        },
{
    let t = trim_white_space(s);
    let n = t.unicode_len();
    let digits = if n >= 2 && t.get_char(0) == '0' && t.get_char(1) == 'x' {
        t.substring_char(2, n)
    } else {
        t
    };
    assert(digits@ == without_0x(trimmed(s@)));
    match decode_hex(digits) {
        None => Err(CeremonyError::InvalidSecretKey),
        Some(bytes) => {
            if bytes.len() != 32 {
                return Err(CeremonyError::InvalidSecretKey);
            }
            let mut key = [0u8; 32];
            let mut i: usize = 0;
            while i < 32
                invariant
                    i <= 32,
                    bytes@.len() == 32,
                    forall|k: int| 0 <= k < i ==> key@[k] == bytes@[k],
                decreases 32 - i,
            {
                key[i] = bytes[i];
                i = i + 1;
            }
            assert(key@ =~= bytes@);
            Ok(key)
        },
    }
}

/// The secret key that a stored key file holds: a JSON string of
/// hexadecimal digits.
pub open spec fn secret_key_of_text(text: Seq<char>) -> Result<Seq<u8>, CeremonyError> {
    match string_of_json(text) {
        None => Err(CeremonyError::SerializationError),
        Some(s) => match secret_key_of_hex(s) {
            Some(k) => Ok(k),
            None => Err(CeremonyError::InvalidSecretKey),
        },
    }
}

/// Reads a participant's secret key from the text of its key file.
pub fn parse_secret_key(text: &str) -> (r: Result<[u8; 32], CeremonyError>)
    ensures
        match secret_key_of_text(text@) {
            Ok(k) => r is Ok && r->Ok_0@ == k,
            Err(e) => r == Err::<[u8; 32], CeremonyError>(e),
        },
{
    match string_from_json(text) {
        None => Err(CeremonyError::SerializationError),
        Some(s) => secret_key_from_hex(s.as_str()),
    }
}

} // verus!
