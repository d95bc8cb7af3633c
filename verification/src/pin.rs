//! Pins: the CIDs that are to be kept, each with a mode.
use vstd::prelude::*;

use crate::content_id::{Cid, CidView, cid_decoding, cid_encoding, encodes_back};
use crate::error::KshError;
use crate::keyed::{distinct_keys, has_key, keyed_map, lemma_keyed_append, lemma_keyed_lookup, lemma_keyed_replace, lemma_keyed_take_out};
use crate::store::cid_views;

verus! {

/// How a CID is pinned.
#[derive(Clone, Copy, Debug, PartialEq, Eq, Structural)]
pub enum PinMode {
    Direct,
    Recursive,
}

/// The values of a sequence of pins.
pub open spec fn pin_views(v: Seq<(Cid, PinMode)>) -> Seq<(CidView, PinMode)> {
    v.map_values(|p: (Cid, PinMode)| (p.0@, p.1))
}

/// Where `cid` stands among `pins`, if it does.
fn index_of(pins: &Vec<(Cid, PinMode)>, cid: &Cid) -> (r: Option<usize>)
    ensures
        r matches Some(i) ==> i < pins@.len() && pins@[i as int].0@ == cid@,
        r is None ==> forall|i: int| 0 <= i < pins@.len() ==> pins@[i].0@ != cid@,
{
    let n = pins.len();
    let mut i: usize = 0;
    while i < n
        invariant
            n == pins@.len(),
            i <= n,
            forall|j: int| 0 <= j < i ==> pins@[j].0@ != cid@,
        decreases n - i,
    {
        if pins[i].0.equals(cid) {
            return Some(i);
        }
        i = i + 1;
    }
    None
}

/// The byte that stands for a mode in the stored form of pins.
pub open spec fn mode_byte(mode: PinMode) -> u8 {
    match mode {
        PinMode::Direct => 0,
        PinMode::Recursive => 1,
    }
}

/// The mode that a byte stands for, if any.
pub open spec fn mode_of_byte(b: u8) -> Option<PinMode> {
    if b == 0 {
        Some(PinMode::Direct)
    } else if b == 1 {
        Some(PinMode::Recursive)
    } else {
        None
    }
}

/// The stored form of one pin: its mode byte, the length of the CID's
/// binary encoding as one byte, then that encoding.
pub open spec fn pin_record(pin: (CidView, PinMode)) -> Seq<u8> {
    seq![mode_byte(pin.1), cid_encoding(pin.0).len() as u8] + cid_encoding(pin.0)
}

/// The stored form of a list of pins: their records, one after the other.
pub open spec fn pins_encoding(pins: Seq<(CidView, PinMode)>) -> Seq<u8>
    decreases pins.len(),
{
    if pins.len() == 0 {
        Seq::empty()
    } else {
        pin_record(pins[0]) + pins_encoding(pins.drop_first())
    }
}

/// The pins that stored bytes hold, in order; `None` where the bytes are not
/// a sequence of whole records, each with a known mode and a CID.
pub open spec fn pins_decoding(b: Seq<u8>) -> Option<Seq<(CidView, PinMode)>>
    decreases b.len(),
{
    if b.len() == 0 {
        Some(Seq::empty())
    } else if b.len() < 2 || b.len() < 2 + b[1] {
        None
    } else {
        let n = b[1] as int;
        match (mode_of_byte(b[0]), cid_decoding(b.subrange(2, 2 + n))) {
            (Some(m), Some(c)) => match pins_decoding(b.skip(2 + n)) {
                Some(rest) => Some(seq![(c, m)] + rest),
                None => None,
            },
            _ => None,
        }
    }
}

proof fn lemma_encoding_push(pins: Seq<(CidView, PinMode)>, pin: (CidView, PinMode))
    ensures
        pins_encoding(pins.push(pin)) == pins_encoding(pins) + pin_record(pin),
    decreases pins.len(),
{
    if pins.len() == 0 {
        assert(pins.push(pin).drop_first() =~= Seq::<(CidView, PinMode)>::empty());
        assert(pins.push(pin)[0] == pin);
        assert(pins_encoding(pins.push(pin).drop_first()) == Seq::<u8>::empty());
        assert(pins_encoding(pins) == Seq::<u8>::empty());
        assert(pin_record(pin) + Seq::<u8>::empty() =~= pin_record(pin));
        assert(Seq::<u8>::empty() + pin_record(pin) =~= pin_record(pin));
    } else {
        assert(pins.push(pin).drop_first() =~= pins.drop_first().push(pin));
        lemma_encoding_push(pins.drop_first(), pin);
        assert(pins_encoding(pins.push(pin)) =~= pins_encoding(pins) + pin_record(pin));
    }
}

/// Reading back the stored form of pins gives the same pins, in order, where
/// the CID codec reads each CID back from its encoding.
pub proof fn lemma_pins_round_trip(pins: Seq<(CidView, PinMode)>)
    requires
        forall|i: int| 0 <= i < pins.len() ==> encodes_back(#[trigger] pins[i].0),
    ensures
        pins_decoding(pins_encoding(pins)) == Some(pins),
    decreases pins.len(),
{
    if pins.len() > 0 {
        let p = pins[0];
        let rest = pins.drop_first();
        let b = pins_encoding(pins);
        let e = cid_encoding(p.0);
        assert(encodes_back(pins[0].0));
        assert forall|i: int| 0 <= i < rest.len() implies encodes_back(#[trigger] rest[i].0) by {
            assert(rest[i] == pins[i + 1]);
        }
        lemma_pins_round_trip(rest);
        assert(b[0] == mode_byte(p.1));
        assert(b[1] == e.len() as u8);
        assert(b[1] as int == e.len());
        assert(b.subrange(2, 2 + e.len() as int) =~= e);
        assert(b.skip(2 + e.len() as int) =~= pins_encoding(rest));
        assert(mode_of_byte(mode_byte(p.1)) == Some(p.1));
        assert(seq![p] + rest =~= pins);
    }
}

/// Pins `pre` in front of what the rest of some stored bytes holds.
pub open spec fn after_pins(pre: Seq<(CidView, PinMode)>, rest: Option<Seq<(CidView, PinMode)>>) -> Option<Seq<(CidView, PinMode)>> {
    match rest {
        Some(r) => Some(pre + r),
        None => None,
    }
}

/// The pinned CIDs and their modes.
pub struct PinManager {
    pins: Vec<(Cid, PinMode)>,
}

impl PinManager {
    /// The pins, in the order they were first made.
    pub closed spec fn entries(&self) -> Seq<(CidView, PinMode)> {
        pin_views(self.pins@)
    }

    /// The mode of each pinned CID.
    pub closed spec fn pins(&self) -> Map<CidView, PinMode> {
        keyed_map(self.entries())
    }

    #[verifier::type_invariant]
    closed spec fn inv(self) -> bool {
        distinct_keys(pin_views(self.pins@))
    }

    /// No pins.
    pub fn new() -> (m: PinManager)
        ensures
            m.pins() == Map::<CidView, PinMode>::empty(),
            m.entries() == Seq::<(CidView, PinMode)>::empty(),
    {
        let m = PinManager { pins: Vec::new() };
        assert(m.pins() =~= Map::<CidView, PinMode>::empty());
        m
    }

    fn find(&self, cid: &Cid) -> (r: Option<usize>)
        ensures
            r matches Some(i) ==> i < self.pins@.len() && self.pins@[i as int].0@ == cid@,
            r is None ==> forall|i: int| 0 <= i < self.pins@.len() ==> self.pins@[i].0@ != cid@,
    {
        index_of(&self.pins, cid)
    }

    /// Pins `cid` with `mode`, replacing the mode it had.
    pub fn pin(&mut self, cid: Cid, mode: PinMode) -> (r: Result<(), KshError>)
        ensures
            r is Ok,
            final(self).pins() == old(self).pins().insert(cid@, mode),
    {
        proof {
            use_type_invariant(&*self);
        }
        let ghost before = self.entries();
        let found = self.find(&cid);
        let mut pins: Vec<(Cid, PinMode)> = Vec::new();
        std::mem::swap(&mut pins, &mut self.pins);
        assert(pin_views(pins@) == before);
        let ghost entry = (cid@, mode);
        match found {
            Some(k) => {
                pins.set(k, (cid, mode));
                proof {
                    lemma_keyed_replace(before, k as int, entry);
                    assert(pin_views(pins@) =~= before.update(k as int, entry));
                }
            },
            None => {
                pins.push((cid, mode));
                proof {
                    lemma_keyed_append(before, entry);
                    assert(pin_views(pins@) =~= before.push(entry));
                }
            },
        }
        self.pins = pins;
        Ok(())
    }

    /// Whether `cid` is pinned.
    pub fn is_pinned(&self, cid: &Cid) -> (b: bool)
        ensures
            b == self.pins().contains_key(cid@),
    {
        proof {
            use_type_invariant(self);
        }
        match self.find(cid) {
            Some(i) => {
                proof {
                    lemma_keyed_lookup(self.entries(), i as int);
                }
                true
            },
            None => {
                assert(!has_key(self.entries(), cid@));
                false
            },
        }
    }

    /// Unpins `cid`, if it is pinned.
    pub fn unpin(&mut self, cid: &Cid) -> (r: Result<(), KshError>)
        ensures
            r is Ok,
            final(self).pins() == old(self).pins().remove(cid@),
    {
        proof {
            use_type_invariant(&*self);
        }
        let ghost before = self.entries();
        match self.find(cid) {
            Some(k) => {
                let mut pins: Vec<(Cid, PinMode)> = Vec::new();
                std::mem::swap(&mut pins, &mut self.pins);
                assert(pin_views(pins@) == before);
                pins.remove(k);
                proof {
                    lemma_keyed_take_out(before, k as int);
                    assert(pin_views(pins@) =~= before.remove(k as int));
                }
                self.pins = pins;
            },
            None => {
                assert(!has_key(before, cid@));
                assert(keyed_map(before).remove(cid@) =~= keyed_map(before));
            },
        }
        Ok(())
    }

    /// The stored form of the pins: their records, in the order the pins
    /// were first made. Reading it back gives the same pins.
    pub fn to_bytes(&self) -> (b: Vec<u8>)
        ensures
            b@ == pins_encoding(self.entries()),
            pins_decoding(b@) == Some(self.entries()),
    {
        let ghost es = self.entries();
        let n = self.pins.len();
        let mut b: Vec<u8> = Vec::new();
        let mut i: usize = 0;
        proof {
            assert(es.take(0) =~= Seq::<(CidView, PinMode)>::empty());
        }
        while i < n
            invariant
                n == self.pins@.len(),
                es == self.entries(),
                i <= n,
                b@ == pins_encoding(es.take(i as int)),
                forall|j: int| 0 <= j < i ==> encodes_back(#[trigger] es[j].0),
            decreases n - i,
        {
            let cid_bytes = self.pins[i].0.to_bytes();
            let mode: u8 = match self.pins[i].1 {
                PinMode::Direct => 0,
                PinMode::Recursive => 1,
            };
            b.push(mode);
            b.push(cid_bytes.len() as u8);
            crate::dag::append_bytes(&mut b, cid_bytes.as_slice());
            proof {
                assert(es[i as int] == (self.pins@[i as int].0@, self.pins@[i as int].1));
                assert(es.take(i + 1) =~= es.take(i as int).push(es[i as int]));
                lemma_encoding_push(es.take(i as int), es[i as int]);
                assert(b@ =~= pins_encoding(es.take(i as int)) + pin_record(es[i as int]));
            }
            i = i + 1;
        }
        proof {
            assert(es.take(n as int) =~= es);
            lemma_pins_round_trip(es);
        }
        b
    }

    /// The pins that stored bytes hold; refused where the bytes are not whole
    /// records or pin a CID twice.
    pub fn from_bytes(bytes: &[u8]) -> (r: Result<PinManager, KshError>)
        ensures
            r matches Ok(m) ==> pins_decoding(bytes@) == Some(m.entries()),
            r is Ok <==> (pins_decoding(bytes@) matches Some(es) && distinct_keys(es)),
            r matches Err(e) ==> e is InvalidPins,
    {
        let ghost b = bytes@;
        let len = bytes.len();
        let mut pins: Vec<(Cid, PinMode)> = Vec::new();
        let mut pos: usize = 0;
        proof {
            assert(b.skip(0) =~= b);
            assert(Seq::<(CidView, PinMode)>::empty() + Seq::<(CidView, PinMode)>::empty() =~= Seq::<(CidView, PinMode)>::empty());
            match pins_decoding(b) {
                Some(r) => {
                    assert(Seq::<(CidView, PinMode)>::empty() + r =~= r);
                },
                None => {},
            }
        }
        while pos < len
            invariant
                len == b.len(),
                b == bytes@,
                pos <= len,
                pins_decoding(b) == after_pins(pin_views(pins@), pins_decoding(b.skip(pos as int))),
                distinct_keys(pin_views(pins@)),
            decreases len - pos,
        {
            let ghost s = b.skip(pos as int);
            let ghost acc = pin_views(pins@);
            if len - pos < 2 || len - pos < 2 + bytes[pos + 1] as usize {
                return Err(KshError::InvalidPins);
            }
            let n = bytes[pos + 1] as usize;
            let mode = if bytes[pos] == 0 {
                PinMode::Direct
            } else if bytes[pos] == 1 {
                PinMode::Recursive
            } else {
                return Err(KshError::InvalidPins);
            };
            proof {
                assert(s[0] == bytes@[pos as int] && s[1] == bytes@[pos + 1]);
                assert(s.subrange(2, 2 + n) =~= b.subrange(pos + 2, pos + 2 + n));
                assert(s.skip(2 + n) =~= b.skip(pos + 2 + n));
            }
            let cid = match Cid::read_bytes(vstd::slice::slice_subrange(bytes, pos + 2, pos + 2 + n)) {
                Ok(c) => c,
                Err(_) => {
                    return Err(KshError::InvalidPins);
                },
            };
            let ghost entry = (cid@, mode);
            proof {
                assert(pins_decoding(s) == after_pins(seq![entry], pins_decoding(b.skip(pos + 2 + n))));
                match pins_decoding(b.skip(pos + 2 + n)) {
                    Some(r) => {
                        assert(acc + (seq![entry] + r) =~= acc.push(entry) + r);
                    },
                    None => {},
                }
            }
            match index_of(&pins, &cid) {
                Some(k) => {
                    proof {
                        match pins_decoding(b) {
                            Some(es) => {
                                assert(es[k as int] == acc[k as int]);
                                assert(es[acc.len() as int] == entry);
                            },
                            None => {},
                        }
                    }
                    return Err(KshError::InvalidPins);
                },
                None => {},
            }
            pins.push((cid, mode));
            proof {
                assert(pin_views(pins@) =~= acc.push(entry));
                assert forall|x: int, y: int|
                    0 <= x < acc.len() + 1 && 0 <= y < acc.len() + 1 && x != y implies (#[trigger] acc.push(entry)[x]).0
                    != (#[trigger] acc.push(entry)[y]).0 by {
                    if x == acc.len() {
                        assert(pins@[y].0@ != cid@);
                    } else if y == acc.len() {
                        assert(pins@[x].0@ != cid@);
                    }
                }
            }
            pos = pos + 2 + n;
        }
        proof {
            assert(b.skip(len as int) =~= Seq::<u8>::empty());
            assert(pin_views(pins@) + Seq::<(CidView, PinMode)>::empty() =~= pin_views(pins@));
        }
        Ok(PinManager { pins })
    }

    /// Every pin with its mode, each CID once.
    pub fn list(&self) -> (v: Vec<(Cid, PinMode)>)
        ensures
            pin_views(v@) == self.entries(),
            keyed_map(pin_views(v@)) == self.pins(),
            distinct_keys(pin_views(v@)),
    {
        proof {
            use_type_invariant(self);
        }
        let n = self.pins.len();
        let mut v: Vec<(Cid, PinMode)> = Vec::new();
        let mut i: usize = 0;
        while i < n
            invariant
                n == self.pins@.len(),
                i <= n,
                pin_views(v@) == self.entries().take(i as int),
            decreases n - i,
        {
            let ghost before = pin_views(v@);
            v.push((self.pins[i].0.duplicate(), self.pins[i].1));
            assert(pin_views(v@) =~= before.push(self.entries()[i as int]));
            assert(self.entries().take(i + 1) =~= self.entries().take(i as int).push(self.entries()[i as int]));
            i = i + 1;
        }
        assert(self.entries().take(n as int) =~= self.entries());
        v
    }

    /// The pinned CIDs, each once.
    pub fn all_pinned_cids(&self) -> (v: Vec<Cid>)
        ensures
            cid_views(v@).to_set() == self.pins().dom(),
            cid_views(v@).no_duplicates(),
    {
        proof {
            use_type_invariant(self);
        }
        let n = self.pins.len();
        let mut v: Vec<Cid> = Vec::new();
        let mut i: usize = 0;
        while i < n
            invariant
                n == self.pins@.len(),
                i <= n,
                v@.len() == i,
                forall|j: int| 0 <= j < i ==> (#[trigger] v@[j])@ == self.pins@[j].0@,
            decreases n - i,
        {
            v.push(self.pins[i].0.duplicate());
            i = i + 1;
        }
        let ghost views = cid_views(v@);
        let ghost es = self.entries();
        assert forall|j: int| 0 <= j < views.len() implies #[trigger] views[j] == es[j].0 by {}
        assert forall|c: CidView| #[trigger] views.to_set().contains(c) <==> self.pins().dom().contains(c) by {
            if views.to_set().contains(c) {
                let j = choose|j: int| 0 <= j < views.len() && views[j] == c;
                assert(es[j].0 == c);
            }
            if self.pins().dom().contains(c) {
                let j = choose|j: int| 0 <= j < es.len() && (#[trigger] es[j]).0 == c;
                assert(views[j] == c);
            }
        }
        assert(views.to_set() =~= self.pins().dom());
        assert forall|a: int, b: int| 0 <= a < views.len() && 0 <= b < views.len() && a != b implies views[a]
            != views[b] by {
            assert(es[a].0 == views[a] && es[b].0 == views[b]);
        }
        v
    }
}

/// Pinning a CID makes it pinned with that mode, unpinning it makes it not
/// pinned, and neither changes whether, or how, any other CID is pinned.
pub proof fn lemma_pin_then_unpin(pins: Map<CidView, PinMode>, c: CidView, other: CidView, mode: PinMode)
    ensures
        pins.insert(c, mode).contains_key(c) && pins.insert(c, mode)[c] == mode,
        !pins.remove(c).contains_key(c),
        other != c ==> pins.insert(c, mode).contains_key(other) == pins.contains_key(other),
        other != c ==> pins.remove(c).contains_key(other) == pins.contains_key(other),
        other != c && pins.contains_key(other) ==> pins.insert(c, mode)[other] == pins[other]
            && pins.remove(c)[other] == pins[other],
{
}

} // verus!
