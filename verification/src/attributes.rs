use vstd::prelude::*;

use vstd::utf8::encode_utf8;

use crate::digest::{
    hex_encode, sha256_digest, spec_decimal, spec_hex_bytes, spec_hex_chars, spec_sha256,
    lemma_hex_chars_utf8, u128_decimal,
};
use crate::errors::MyceliumError;
use crate::mycelium::Mycelium;
use crate::spore::Sporeprint;

verus! {

/// A typed fact attached to a provenance node.
#[derive(Debug)]
pub enum Attribute {
    /// Identity of the node's creator.
    OriginSpore(Sporeprint),
    /// Creation moment, in nanoseconds since the epoch.
    OriginMoment(u128),
    /// Signature over the node's content hash; contributes nothing to the
    /// hash itself, so that signing does not disturb what was signed.
    OriginSignature(Vec<u8>),
    /// Most recent mutation moment, in nanoseconds since the epoch; used as
    /// a tie-breaker when pruning.
    LastUpdate(u128),
}

/// The variant kind of an attribute, payload disregarded. The attribute set
/// holds at most one attribute of each kind.
pub enum AttrKind {
    Spore,
    Moment,
    Signature,
    Update,
}

impl Attribute {
    /// The variant kind of this attribute.
    pub open spec fn spec_kind(&self) -> AttrKind {
        match self {
            Attribute::OriginSpore(_) => AttrKind::Spore,
            Attribute::OriginMoment(_) => AttrKind::Moment,
            Attribute::OriginSignature(_) => AttrKind::Signature,
            Attribute::LastUpdate(_) => AttrKind::Update,
        }
    }

    /// Compares the variants of two attributes without reading their payloads.
    pub fn shallow_eq(&self, other: &Self) -> (r: bool)
        ensures
            r == (self.spec_kind() == other.spec_kind()),
    {
        match (self, other) {
            (Attribute::OriginSpore(_), Attribute::OriginSpore(_)) => true,
            (Attribute::OriginMoment(_), Attribute::OriginMoment(_)) => true,
            (Attribute::OriginSignature(_), Attribute::OriginSignature(_)) => true,
            (Attribute::LastUpdate(_), Attribute::LastUpdate(_)) => true,
            _ => false,
        }
    }

    /// The bytes of this attribute's payload as they enter its digest:
    /// the identifier's text, a moment's decimal form, nothing for a
    /// signature.
    pub open spec fn spec_payload_bytes(&self) -> Seq<u8> {
        match self {
            Attribute::OriginSpore(p) => encode_utf8(p@),
            Attribute::OriginMoment(m) => spec_decimal(*m as nat),
            Attribute::OriginSignature(_) => Seq::empty(),
            Attribute::LastUpdate(m) => spec_decimal(*m as nat),
        }
    }

    /// The characters of this attribute's digest contribution: the
    /// hexadecimal SHA-256 of its payload bytes, and nothing at all for a
    /// signature.
    pub open spec fn spec_hash(&self) -> Seq<char> {
        match self {
            Attribute::OriginSignature(_) => Seq::empty(),
            _ => spec_hex_chars(spec_sha256(self.spec_payload_bytes())),
        }
    }

    /// The UTF-8 bytes of this attribute's digest contribution, as they are
    /// folded into the owning node's digest input.
    pub open spec fn spec_contribution(&self) -> Seq<u8> {
        match self {
            Attribute::OriginSignature(_) => Seq::empty(),
            _ => spec_hex_bytes(spec_sha256(self.spec_payload_bytes())),
        }
    }

    /// The contribution is exactly the UTF-8 form of the digest characters.
    pub proof fn lemma_contribution_is_hash_utf8(&self)
        ensures
            encode_utf8(self.spec_hash()) == self.spec_contribution(),
    {
        match self {
            Attribute::OriginSignature(_) => {
                assert(encode_utf8(Seq::<char>::empty()) =~= Seq::<u8>::empty());
            },
            _ => {
                lemma_hex_chars_utf8(spec_sha256(self.spec_payload_bytes()));
            },
        }
    }

    /// The digest contribution of this attribute. A signature yields the
    /// empty string: were it hashed, signing a node would change the very
    /// hash that was signed.
    pub fn get_hash(&self) -> (r: String)
        ensures
            r@ == self.spec_hash(),
    {
        match self {
            Attribute::OriginSpore(p) => {
                let digest = sha256_digest(p.as_str().as_bytes());
                hex_encode(digest.as_slice())
            },
            Attribute::OriginMoment(m) => {
                let text = u128_decimal(*m);
                let digest = sha256_digest(text.as_slice());
                hex_encode(digest.as_slice())
            },
            Attribute::OriginSignature(_) => String::new(),
            Attribute::LastUpdate(m) => {
                let text = u128_decimal(*m);
                let digest = sha256_digest(text.as_slice());
                hex_encode(digest.as_slice())
            },
        }
    }
}

/// The first attribute of the given kind at or after position `i`.
pub open spec fn spec_attr_search(s: Seq<Attribute>, k: AttrKind, i: int) -> Option<Attribute>
    decreases s.len() - i,
{
    if i < 0 || i >= s.len() {
        None
    } else if s[i].spec_kind() == k {
        Some(s[i])
    } else {
        spec_attr_search(s, k, i + 1)
    }
}

/// The first attribute of the given kind, if any.
pub open spec fn spec_first_attr(s: Seq<Attribute>, k: AttrKind) -> Option<Attribute> {
    spec_attr_search(s, k, 0)
}

/// What the search returns is of the kind searched for.
pub proof fn lemma_search_kind(s: Seq<Attribute>, k: AttrKind, i: int)
    ensures
        match spec_attr_search(s, k, i) {
            Some(a) => a.spec_kind() == k,
            None => true,
        },
    decreases s.len() - i,
{
    if 0 <= i && i < s.len() && s[i].spec_kind() != k {
        lemma_search_kind(s, k, i + 1);
    }
}

/// The identity payload of the last `OriginSpore` attribute, if any.
pub open spec fn spec_last_spore(s: Seq<Attribute>) -> Option<Sporeprint>
    decreases s.len(),
{
    if s.len() == 0 {
        None
    } else {
        match s.last() {
            Attribute::OriginSpore(p) => Some(p),
            _ => spec_last_spore(s.drop_last()),
        }
    }
}

/// The moment payload of the last `OriginMoment` attribute, if any.
pub open spec fn spec_last_moment(s: Seq<Attribute>) -> Option<u128>
    decreases s.len(),
{
    if s.len() == 0 {
        None
    } else {
        match s.last() {
            Attribute::OriginMoment(m) => Some(m),
            _ => spec_last_moment(s.drop_last()),
        }
    }
}

/// The attribute sequence with every attribute of the given kind removed,
/// the order of the rest kept.
pub open spec fn spec_remove_kind(s: Seq<Attribute>, k: AttrKind) -> Seq<Attribute>
    decreases s.len(),
{
    if s.len() == 0 {
        Seq::empty()
    } else if s.last().spec_kind() == k {
        spec_remove_kind(s.drop_last(), k)
    } else {
        spec_remove_kind(s.drop_last(), k).push(s.last())
    }
}

/// The attribute set after a per-kind upsert: every attribute of the new
/// one's kind is removed and the new one is appended.
pub open spec fn spec_set_attrs(s: Seq<Attribute>, a: Attribute) -> Seq<Attribute> {
    spec_remove_kind(s, a.spec_kind()).push(a)
}

/// A prefix holds an `OriginSpore` attribute only if the whole does.
proof fn lemma_last_spore_monotone(s: Seq<Attribute>, i: int)
    requires
        0 <= i <= s.len(),
        spec_last_spore(s.take(i)) is Some,
    ensures
        spec_last_spore(s) is Some,
    decreases s.len() - i,
{
    if i < s.len() {
        assert(s.take(i + 1).drop_last() =~= s.take(i));
        lemma_last_spore_monotone(s, i + 1);
    } else {
        assert(s.take(i) =~= s);
    }
}

/// A prefix holds an `OriginMoment` attribute only if the whole does.
proof fn lemma_last_moment_monotone(s: Seq<Attribute>, i: int)
    requires
        0 <= i <= s.len(),
        spec_last_moment(s.take(i)) is Some,
    ensures
        spec_last_moment(s) is Some,
    decreases s.len() - i,
{
    if i < s.len() {
        assert(s.take(i + 1).drop_last() =~= s.take(i));
        lemma_last_moment_monotone(s, i + 1);
    } else {
        assert(s.take(i) =~= s);
    }
}

impl Mycelium {
    /// Both origin attributes are present.
    pub open spec fn spec_has_origin(&self) -> bool {
        spec_last_spore(self.attributes@) is Some && spec_last_moment(self.attributes@) is Some
    }

    /// The full ordered attribute collection.
    pub fn get_attrs(&self) -> (r: &Vec<Attribute>)
        ensures
            r@ == self.attributes@,
    {
        &self.attributes
    }

    /// The first attribute of the same kind as the given one, its payload
    /// disregarded; `None` if the kind is absent.
    pub fn get_attr(&self, attribute: Attribute) -> (r: Option<&Attribute>)
        ensures
            match r {
                Some(a) => spec_first_attr(self.attributes@, attribute.spec_kind()) == Some(*a),
                None => spec_first_attr(self.attributes@, attribute.spec_kind()) is None,
            },
    {
        let n = self.attributes.len();
        let mut i: usize = 0;
        while i < n
            invariant
                i <= n,
                n == self.attributes@.len(),
                spec_first_attr(self.attributes@, attribute.spec_kind()) == spec_attr_search(
                    self.attributes@,
                    attribute.spec_kind(),
                    i as int,
                ),
            decreases n - i,
        {
            if self.attributes[i].shallow_eq(&attribute) {
                return Some(&self.attributes[i]);
            }
            i = i + 1;
        }
        None
    }

    /// The origin asserted by this node: the identity and moment payloads of
    /// its origin attributes, each independently optional.
    pub fn get_origin(&self) -> (r: (Option<&Sporeprint>, Option<&u128>))
        ensures
            match r.0 {
                Some(p) => spec_last_spore(self.attributes@) == Some(*p),
                None => spec_last_spore(self.attributes@) is None,
            },
            match r.1 {
                Some(m) => spec_last_moment(self.attributes@) == Some(*m),
                None => spec_last_moment(self.attributes@) is None,
            },
    {
        let ghost s = self.attributes@;
        let n = self.attributes.len();
        let mut spore: Option<&Sporeprint> = None;
        let mut moment: Option<&u128> = None;
        let mut i: usize = 0;
        while i < n
            invariant
                i <= n,
                n == s.len(),
                s == self.attributes@,
                match spore {
                    Some(p) => spec_last_spore(s.take(i as int)) == Some(*p),
                    None => spec_last_spore(s.take(i as int)) is None,
                },
                match moment {
                    Some(m) => spec_last_moment(s.take(i as int)) == Some(*m),
                    None => spec_last_moment(s.take(i as int)) is None,
                },
            decreases n - i,
        {
            proof {
                assert(s.take(i + 1).drop_last() =~= s.take(i as int));
                assert(s.take(i + 1).last() == s[i as int]);
            }
            match &self.attributes[i] {
                Attribute::OriginSpore(p) => { spore = Some(p); },
                Attribute::OriginMoment(m) => { moment = Some(m); },
                _ => {},
            }
            i = i + 1;
        }
        proof {
            assert(s.take(n as int) =~= s);
        }
        (spore, moment)
    }

    /// Whether both origin attributes are present; stops scanning as soon as
    /// both have been seen.
    pub fn has_origin(&self) -> (r: bool)
        ensures
            r == self.spec_has_origin(),
    {
        let ghost s = self.attributes@;
        let n = self.attributes.len();
        let mut has_spore = false;
        let mut has_moment = false;
        let mut i: usize = 0;
        while i < n
            invariant
                i <= n,
                n == s.len(),
                s == self.attributes@,
                has_spore == (spec_last_spore(s.take(i as int)) is Some),
                has_moment == (spec_last_moment(s.take(i as int)) is Some),
            decreases n - i,
        {
            proof {
                assert(s.take(i + 1).drop_last() =~= s.take(i as int));
                assert(s.take(i + 1).last() == s[i as int]);
            }
            match &self.attributes[i] {
                Attribute::OriginSpore(_) => { has_spore = true; },
                Attribute::OriginMoment(_) => { has_moment = true; },
                _ => {},
            }
            i = i + 1;
            if has_spore && has_moment {
                proof {
                    lemma_last_spore_monotone(s, i as int);
                    lemma_last_moment_monotone(s, i as int);
                }
                return true;
            }
        }
        proof {
            assert(s.take(n as int) =~= s);
        }
        has_spore && has_moment
    }

    /// Upserts an attribute: removes every attribute of the same kind, then
    /// appends the new one, keeping the order of the rest.
    pub fn set_attr(&mut self, attribute: Attribute) -> (r: Result<(), MyceliumError>)
        ensures
            r is Ok,
            final(self).attributes@ == spec_set_attrs(old(self).attributes@, attribute),
            final(self).mycelia@ == old(self).mycelia@,
    {
        let ghost k = attribute.spec_kind();
        let mut tmp: Vec<Attribute> = Vec::new();
        std::mem::swap(&mut self.attributes, &mut tmp);
        let ghost s = tmp@;
        let mut kept: Vec<Attribute> = Vec::new();
        let ghost mut i: int = 0;
        while tmp.len() > 0
            invariant
                0 <= i <= s.len(),
                tmp@ == s.skip(i),
                kept@ == spec_remove_kind(s.take(i), k),
                k == attribute.spec_kind(),
            decreases tmp@.len(),
        {
            let a = tmp.remove(0);
            proof {
                assert(a == s[i]);
                assert(s.take(i + 1).drop_last() =~= s.take(i));
                assert(s.take(i + 1).last() == s[i]);
                assert(tmp@ =~= s.skip(i + 1));
            }
            if !a.shallow_eq(&attribute) {
                kept.push(a);
            }
            proof {
                i = i + 1;
            }
        }
        proof {
            assert(s.take(i) =~= s);
        }
        kept.push(attribute);
        self.attributes = kept;
        Ok(())
    }

    /// Refreshes the `LastUpdate` attribute to the current moment; fails only
    /// if the clock is unavailable, leaving the node unchanged.
    pub fn set_update(&mut self) -> (r: Result<(), MyceliumError>)
        ensures
            r is Ok ==> exists|t: u128|
                final(self).attributes@ == spec_set_attrs(
                    old(self).attributes@,
                    Attribute::LastUpdate(t),
                ),
            r is Err ==> *final(self) == *old(self) && r == Result::<(), MyceliumError>::Err(
                MyceliumError::SystemTimeError,
            ),
            final(self).mycelia@ == old(self).mycelia@,
    {
        match crate::clock::now_nanos() {
            Ok(now) => {
                let r = self.set_attr(Attribute::LastUpdate(now));
                proof {
                    assert(self.attributes@ == spec_set_attrs(
                        old(self).attributes@,
                        Attribute::LastUpdate(now),
                    ));
                }
                r
            },
            Err(e) => Err(e),
        }
    }
}


/// How many attributes of the given kind a sequence holds.
pub open spec fn spec_count_kind(s: Seq<Attribute>, k: AttrKind) -> nat
    decreases s.len(),
{
    if s.len() == 0 {
        0nat
    } else {
        spec_count_kind(s.drop_last(), k) + if s.last().spec_kind() == k {
            1nat
        } else {
            0nat
        }
    }
}

/// Removal leaves nothing of the removed kind.
proof fn lemma_remove_kind_free(s: Seq<Attribute>, k: AttrKind)
    ensures
        forall|i: int| 0 <= i < spec_remove_kind(s, k).len() ==> (#[trigger] spec_remove_kind(
            s,
            k,
        )[i]).spec_kind() != k,
    decreases s.len(),
{
    if s.len() != 0 {
        lemma_remove_kind_free(s.drop_last(), k);
        let rest = spec_remove_kind(s.drop_last(), k);
        if s.last().spec_kind() != k {
            assert forall|i: int| 0 <= i < spec_remove_kind(s, k).len() implies (
            #[trigger] spec_remove_kind(s, k)[i]).spec_kind() != k by {
                if i < rest.len() {
                    assert(spec_remove_kind(s, k)[i] == rest[i]);
                } else {
                    assert(spec_remove_kind(s, k)[i] == s.last());
                }
            }
        }
    }
}

/// Removing an absent kind changes nothing.
proof fn lemma_remove_kind_noop(s: Seq<Attribute>, k: AttrKind)
    requires
        forall|i: int| 0 <= i < s.len() ==> (#[trigger] s[i]).spec_kind() != k,
    ensures
        spec_remove_kind(s, k) == s,
    decreases s.len(),
{
    if s.len() != 0 {
        assert(s.last().spec_kind() != k);
        assert forall|i: int| 0 <= i < s.drop_last().len() implies (
        #[trigger] s.drop_last()[i]).spec_kind() != k by {
            assert(s.drop_last()[i] == s[i]);
        }
        lemma_remove_kind_noop(s.drop_last(), k);
        assert(spec_remove_kind(s, k) =~= s);
    }
}

/// A kind-free sequence counts zero of that kind.
proof fn lemma_count_free_zero(s: Seq<Attribute>, k: AttrKind)
    requires
        forall|i: int| 0 <= i < s.len() ==> (#[trigger] s[i]).spec_kind() != k,
    ensures
        spec_count_kind(s, k) == 0,
    decreases s.len(),
{
    if s.len() != 0 {
        assert forall|i: int| 0 <= i < s.drop_last().len() implies (
        #[trigger] s.drop_last()[i]).spec_kind() != k by {
            assert(s.drop_last()[i] == s[i]);
        }
        lemma_count_free_zero(s.drop_last(), k);
    }
}

/// When everything before the last position lacks the kind and the last
/// carries it, the search finds the last.
proof fn lemma_first_attr_at_end(t: Seq<Attribute>, k: AttrKind, i: int)
    requires
        0 <= i <= t.len() - 1,
        forall|j: int| i <= j < t.len() - 1 ==> (#[trigger] t[j]).spec_kind() != k,
        t.last().spec_kind() == k,
    ensures
        spec_attr_search(t, k, i) == Some(t.last()),
    decreases t.len() - i,
{
    if i < t.len() - 1 {
        lemma_first_attr_at_end(t, k, i + 1);
    }
}

/// Upserting an attribute and then another of the same kind is the same as
/// upserting the second alone: per-kind replacement is idempotent.
pub proof fn lemma_set_attr_idempotent(s: Seq<Attribute>, a1: Attribute, a2: Attribute)
    requires
        a1.spec_kind() == a2.spec_kind(),
    ensures
        spec_set_attrs(spec_set_attrs(s, a1), a2) == spec_set_attrs(s, a2),
{
    let k = a2.spec_kind();
    let r = spec_remove_kind(s, k);
    assert(r.push(a1).drop_last() =~= r);
    assert(r.push(a1).last() == a1);
    assert(spec_remove_kind(r.push(a1), k) == spec_remove_kind(r, k));
    lemma_remove_kind_free(s, k);
    lemma_remove_kind_noop(r, k);
}

/// After an upsert the set holds exactly one attribute of the new one's
/// kind, and the first of that kind is the new one: the latest payload wins.
pub proof fn lemma_set_attr_exactly_one(s: Seq<Attribute>, a: Attribute)
    ensures
        spec_count_kind(spec_set_attrs(s, a), a.spec_kind()) == 1,
        spec_first_attr(spec_set_attrs(s, a), a.spec_kind()) == Some(a),
{
    let k = a.spec_kind();
    let r = spec_remove_kind(s, k);
    let t = r.push(a);
    lemma_remove_kind_free(s, k);
    assert(t.drop_last() =~= r);
    assert(t.last() == a);
    lemma_count_free_zero(r, k);
    assert(spec_count_kind(t, k) == 1);
    assert forall|j: int| 0 <= j < t.len() - 1 implies (#[trigger] t[j]).spec_kind() != k by {
        assert(t[j] == r[j]);
    }
    lemma_first_attr_at_end(t, k, 0);
}

} // verus!
