use vstd::prelude::*;

use vstd::string::StringExecFns;
use vstd::utf8::encode_utf8;

use crate::attributes::{
    Attribute, AttrKind, spec_attr_search, spec_first_attr, spec_last_moment, spec_last_spore,
    spec_set_attrs,
};
use crate::clock::now_nanos;
use crate::digest::{
    hex_encode, lemma_hex_chars_utf8, sha256_digest, spec_hex_bytes, spec_hex_chars, spec_sha256,
};
use crate::errors::MyceliumError;
use crate::spore::{Spore, Sporeprint};

verus! {

/// A child slot of a provenance node: either a fully materialized node or a
/// lightweight reference holding only the identifier of a pruned subtree.
#[derive(Debug)]
pub enum Hypha {
    Owned(Mycelium),
    Reference(Sporeprint),
}

/// A node of the provenance tree: an ordered attribute set and an ordered
/// collection of children.
#[derive(Debug)]
pub struct Mycelium {
    pub attributes: Vec<Attribute>,
    pub mycelia: Vec<Hypha>,
}

/// The concatenated digest contributions of an attribute sequence.
pub open spec fn spec_attrs_fold(s: Seq<Attribute>) -> Seq<u8>
    decreases s.len(),
{
    if s.len() == 0 {
        Seq::empty()
    } else {
        spec_attrs_fold(s.drop_last()) + s.last().spec_contribution()
    }
}

/// The search budget after one descent: one less, except that the zero
/// budget stands for an unbounded search and stays zero.
pub open spec fn spec_next_fuel(fuel: nat) -> nat {
    if fuel == 0 {
        0nat
    } else {
        (fuel - 1) as nat
    }
}

/// The concatenated digest contributions of a children sequence.
pub open spec fn spec_children_fold(s: Seq<Hypha>) -> Seq<u8>
    decreases s,
{
    if s.len() == 0 {
        Seq::empty()
    } else {
        spec_children_fold(s.drop_last()) + s.last().spec_contribution()
    }
}

impl Hypha {
    /// The bytes a child slot contributes to its parent's digest input: an
    /// owned node contributes the UTF-8 of its own hexadecimal hash, a
    /// reference contributes the UTF-8 of its identifier.
    pub open spec fn spec_contribution(&self) -> Seq<u8>
        decreases self,
    {
        match self {
            Hypha::Owned(m) => spec_hex_bytes(spec_sha256(m.spec_digest_input())),
            Hypha::Reference(p) => encode_utf8(p@),
        }
    }
}

impl Mycelium {
    /// The bytes folded into this node's digest: every attribute's
    /// contribution in order, then every child's contribution in order.
    pub open spec fn spec_digest_input(&self) -> Seq<u8>
        decreases self,
    {
        spec_attrs_fold(self.attributes@) + spec_children_fold(self.mycelia@)
    }

    /// The node's content hash: the hexadecimal SHA-256 of its digest input.
    /// Signature attributes contribute nothing, so signing a node leaves its
    /// hash unchanged; pruning, which rewrites owned children to references,
    /// generally does change it.
    pub open spec fn spec_hash(&self) -> Seq<char> {
        spec_hex_chars(spec_sha256(self.spec_digest_input()))
    }

    /// Whether the identifier occurs in a child slot within the given
    /// search budget, looking at slots `j` and beyond. A budget of zero
    /// stands for an unbounded search; a budget of one reaches the direct
    /// children alone.
    pub open spec fn spec_found_from(&self, print: Seq<char>, fuel: nat, j: int) -> bool
        decreases self, self.mycelia@.len() - j,
    {
        if j < 0 || j >= self.mycelia@.len() {
            false
        } else {
            let hit_here = match self.mycelia@[j] {
                Hypha::Owned(c) => (match spec_last_spore(c.attributes@) {
                    Some(p) => p@ == print,
                    None => false,
                }) || (fuel != 1 && c.spec_found_from(print, spec_next_fuel(fuel), 0)),
                Hypha::Reference(q) => q@ == print,
            };
            hit_here || self.spec_found_from(print, fuel, j + 1)
        }
    }

    /// Whether the identifier occurs among this node's descendants within
    /// the given budget (zero standing for no bound).
    pub open spec fn spec_found(&self, print: Seq<char>, fuel: nat) -> bool {
        self.spec_found_from(print, fuel, 0)
    }

    /// Builds a node asserting the given origin: exactly the two origin
    /// attributes, no signature, no children.
    pub fn from_origin(sporeprint: Sporeprint, moment: u128) -> (r: Mycelium)
        ensures
            r.attributes@ =~= seq![
                Attribute::OriginSpore(sporeprint),
                Attribute::OriginMoment(moment),
            ],
            r.mycelia@ =~= Seq::<Hypha>::empty(),
            r.spec_has_origin(),
            spec_first_attr(r.attributes@, AttrKind::Signature) is None,
    {
        let mut attributes: Vec<Attribute> = Vec::new();
        attributes.push(Attribute::OriginSpore(sporeprint));
        attributes.push(Attribute::OriginMoment(moment));
        let r = Mycelium { attributes, mycelia: Vec::new() };
        proof {
            let s = r.attributes@;
            assert(s.len() == 2);
            assert(s.last() == Attribute::OriginMoment(moment));
            assert(s.drop_last().last() == Attribute::OriginSpore(sporeprint));
            assert(spec_last_spore(s) == spec_last_spore(s.drop_last()));
            assert(spec_last_spore(s.drop_last()) == Some(sporeprint));
            assert(spec_last_moment(s) == Some(moment));
            assert(r.spec_has_origin());
            assert(spec_attr_search(s, AttrKind::Signature, 2) is None);
            assert(spec_attr_search(s, AttrKind::Signature, 1) is None);
            assert(spec_attr_search(s, AttrKind::Signature, 0) is None);
        }
        r
    }

    /// Builds a node whose origin is the given capability's identity and the
    /// present moment; fails only if the clock is unavailable.
    pub fn new<T>(spore: T) -> (r: Result<Mycelium, MyceliumError>) where T: Spore
        ensures
            r matches Ok(m) ==> {
                &&& m.attributes@.len() == 2
                &&& m.attributes@[0] is OriginSpore
                &&& m.attributes@[1] is OriginMoment
                &&& m.mycelia@ =~= Seq::<Hypha>::empty()
                &&& m.spec_has_origin()
                &&& spec_first_attr(m.attributes@, AttrKind::Signature) is None
            },
            r is Err ==> r == Result::<Mycelium, MyceliumError>::Err(
                MyceliumError::SystemTimeError,
            ),
    {
        let print = spore.sporeprint();
        match now_nanos() {
            Ok(now) => Ok(Self::from_origin(print, now)),
            Err(e) => Err(e),
        }
    }

    /// The ordered collection of children.
    pub fn get_mycelia(&self) -> (r: &Vec<Hypha>)
        ensures
            r@ == self.mycelia@,
    {
        &self.mycelia
    }

    /// The hexadecimal content hash of this node, recomputed from its
    /// attributes and children on every call.
    pub fn get_hash(&self) -> (r: String)
        ensures
            r@ == self.spec_hash(),
        decreases *self,
    {
        let mut buf: Vec<u8> = Vec::new();
        let ghost attrs = self.attributes@;
        let n = self.attributes.len();
        let mut i: usize = 0;
        while i < n
            invariant
                i <= n,
                n == attrs.len(),
                attrs == self.attributes@,
                buf@ == spec_attrs_fold(attrs.take(i as int)),
            decreases n - i,
        {
            let h = self.attributes[i].get_hash();
            proof {
                attrs[i as int].lemma_contribution_is_hash_utf8();
                assert(attrs.take(i + 1).drop_last() =~= attrs.take(i as int));
                assert(attrs.take(i + 1).last() == attrs[i as int]);
            }
            buf.extend_from_slice(h.as_str().as_bytes());
            i = i + 1;
        }
        proof {
            assert(attrs.take(n as int) =~= attrs);
        }
        let ghost children = self.mycelia@;
        let cn = self.mycelia.len();
        let mut j: usize = 0;
        while j < cn
            invariant
                j <= cn,
                cn == children.len(),
                children == self.mycelia@,
                attrs == self.attributes@,
                buf@ == spec_attrs_fold(attrs) + spec_children_fold(children.take(j as int)),
            decreases cn - j,
        {
            proof {
                assert(children.take(j + 1).drop_last() =~= children.take(j as int));
                assert(children.take(j + 1).last() == children[j as int]);
                assert(spec_children_fold(children.take(j + 1)) == spec_children_fold(
                    children.take(j as int),
                ) + children[j as int].spec_contribution());
            }
            match &self.mycelia[j] {
                Hypha::Owned(m) => {
                    proof {
                        assert(decreases_to!(*self => self.mycelia));
                        assert(decreases_to!(self.mycelia => self.mycelia@));
                        assert(decreases_to!(self.mycelia@ => self.mycelia@[j as int]));
                        assert(decreases_to!(children[j as int] => *m));
                    }
                    let h = m.get_hash();
                    proof {
                        lemma_hex_chars_utf8(spec_sha256(m.spec_digest_input()));
                        assert(children[j as int].spec_contribution() == spec_hex_bytes(
                            spec_sha256(m.spec_digest_input()),
                        ));
                    }
                    buf.extend_from_slice(h.as_str().as_bytes());
                },
                Hypha::Reference(p) => {
                    proof {
                        assert(children[j as int].spec_contribution() == encode_utf8(p@));
                    }
                    buf.extend_from_slice(p.as_str().as_bytes());
                },
            }
            j = j + 1;
        }
        proof {
            assert(children.take(cn as int) =~= children);
        }
        let digest = sha256_digest(buf.as_slice());
        hex_encode(digest.as_slice())
    }

    /// Searches the children (not this node itself) for the identifier,
    /// descending at most `depth` levels when a depth is given. A zero
    /// depth finds nothing. On success the reported depth is the remaining
    /// budget at the top of the search, or a sentinel zero for an unbounded
    /// search; it is not a distance.
    pub fn scan(&self, sporeprint: &Sporeprint, depth: Option<u8>) -> (r: Result<
        Option<u8>,
        MyceliumError,
    >)
        ensures
            r is Ok,
            match depth {
                Some(d) => r matches Ok(found) && found == if d > 0 && self.spec_found(
                    sporeprint@,
                    d as nat,
                ) {
                    Some(d)
                } else {
                    None::<u8>
                },
                None => r matches Ok(found) && found == if self.spec_found(sporeprint@, 0) {
                    Some(0u8)
                } else {
                    None::<u8>
                },
            },
        decreases *self,
    {
        if let Some(d) = depth {
            if d == 0 {
                return Ok(None);
            }
        }
        let ghost fuel: nat = match depth {
            Some(d) => d as nat,
            None => 0,
        };
        let ghost print = sporeprint@;
        let n = self.mycelia.len();
        let mut i: usize = 0;
        while i < n
            invariant
                i <= n,
                n == self.mycelia@.len(),
                fuel == (match depth {
                    Some(d) => d as nat,
                    None => 0nat,
                }),
                depth matches Some(d) ==> d > 0,
                print == sporeprint@,
                self.spec_found(print, fuel) == self.spec_found_from(print, fuel, i as int),
            decreases n - i,
        {
            let ghost slot = self.mycelia@[i as int];
            let ghost hit_here = (match slot {
                Hypha::Owned(c) => (match spec_last_spore(c.attributes@) {
                    Some(p) => p@ == print,
                    None => false,
                }) || (fuel != 1 && c.spec_found_from(print, spec_next_fuel(fuel), 0)),
                Hypha::Reference(q) => q@ == print,
            });
            proof {
                assert(self.spec_found_from(print, fuel, i as int) == (hit_here
                    || self.spec_found_from(print, fuel, i + 1)));
            }
            match &self.mycelia[i] {
                Hypha::Owned(m) => {
                    let hit = match m.get_origin() {
                        (Some(x_sporeprint), _) => *x_sporeprint == *sporeprint,
                        _ => false,
                    };
                    if hit {
                        proof {
                            assert(hit_here);
                            assert(self.spec_found(print, fuel));
                        }
                        match depth {
                            Some(d) => { return Ok(Some(d)); },
                            None => { return Ok(Some(0)); },
                        }
                    }
                    proof {
                        assert(decreases_to!(*self => self.mycelia));
                        assert(decreases_to!(self.mycelia => self.mycelia@));
                        assert(decreases_to!(self.mycelia@ => self.mycelia@[i as int]));
                        assert(decreases_to!(slot => *m));
                    }
                    match depth {
                        Some(d) => {
                            match m.scan(sporeprint, Some(d - 1)) {
                                Ok(Some(_)) => {
                                    proof {
                                        assert(d - 1 > 0);
                                        assert(fuel != 1);
                                        assert(m.spec_found_from(print, spec_next_fuel(fuel), 0));
                                        assert(hit_here);
                                        assert(self.spec_found(print, fuel));
                                    }
                                    return Ok(Some(d));
                                },
                                Ok(None) => {
                                    proof {
                                        if fuel != 1 {
                                            assert(!m.spec_found_from(print, spec_next_fuel(fuel), 0));
                                        }
                                        assert(!hit_here);
                                    }
                                },
                                Err(e) => { return Err(e); },
                            }
                        },
                        None => {
                            match m.scan(sporeprint, None) {
                                Ok(Some(_)) => {
                                    proof {
                                        assert(m.spec_found_from(print, 0, 0));
                                        assert(hit_here);
                                        assert(self.spec_found(print, fuel));
                                    }
                                    return Ok(Some(0));
                                },
                                Ok(None) => {
                                    proof {
                                        assert(!m.spec_found_from(print, 0, 0));
                                        assert(!hit_here);
                                    }
                                },
                                Err(e) => { return Err(e); },
                            }
                        },
                    }
                },
                Hypha::Reference(q) => {
                    if *q == *sporeprint {
                        proof {
                            assert(hit_here);
                            assert(self.spec_found(print, fuel));
                        }
                        match depth {
                            Some(d) => { return Ok(Some(d)); },
                            None => { return Ok(Some(0)); },
                        }
                    }
                    proof {
                        assert(!hit_here);
                    }
                },
            }
            i = i + 1;
        }
        proof {
            assert(!self.spec_found_from(print, fuel, n as int));
        }
        Ok(None)
    }
}

/// Removing every signature attribute and appending a new one leaves the
/// folded digest contributions unchanged: signatures contribute nothing.
pub proof fn lemma_sign_preserves_fold(s: Seq<Attribute>, sig: Vec<u8>)
    ensures
        spec_attrs_fold(spec_set_attrs(s, Attribute::OriginSignature(sig))) == spec_attrs_fold(s),
{
    let removed = crate::attributes::spec_remove_kind(s, AttrKind::Signature);
    lemma_remove_signature_preserves_fold(s);
    let appended = removed.push(Attribute::OriginSignature(sig));
    assert(appended.drop_last() =~= removed);
    assert(appended.last() == Attribute::OriginSignature(sig));
    assert(spec_attrs_fold(appended) == spec_attrs_fold(removed)
        + Attribute::OriginSignature(sig).spec_contribution());
    assert(spec_attrs_fold(appended) =~= spec_attrs_fold(removed));
}

/// Dropping signature attributes does not change the fold.
proof fn lemma_remove_signature_preserves_fold(s: Seq<Attribute>)
    ensures
        spec_attrs_fold(crate::attributes::spec_remove_kind(s, AttrKind::Signature))
            == spec_attrs_fold(s),
    decreases s.len(),
{
    if s.len() != 0 {
        lemma_remove_signature_preserves_fold(s.drop_last());
        let rest = crate::attributes::spec_remove_kind(s.drop_last(), AttrKind::Signature);
        if s.last().spec_kind() == AttrKind::Signature {
            assert(s.last().spec_contribution() =~= Seq::<u8>::empty());
            assert(spec_attrs_fold(s) =~= spec_attrs_fold(s.drop_last()));
        } else {
            let appended = rest.push(s.last());
            assert(appended.drop_last() =~= rest);
            assert(appended.last() == s.last());
        }
    }
}

impl Mycelium {
    /// Signs the node: computes its hash, asks the capability to sign the
    /// hash text, and upserts the result as the signature attribute. The
    /// hash itself is unchanged by signing. Fails only if the capability
    /// refuses, leaving the node unchanged.
    pub fn sign<T>(&mut self, spore: &T) -> (r: Result<(), MyceliumError>) where T: Spore
        ensures
            r is Ok ==> exists|sig: Vec<u8>|
                final(self).attributes@ == spec_set_attrs(
                    old(self).attributes@,
                    Attribute::OriginSignature(sig),
                ),
            r is Ok ==> spec_first_attr(final(self).attributes@, AttrKind::Signature) is Some,
            final(self).mycelia@ == old(self).mycelia@,
            final(self).spec_hash() == old(self).spec_hash(),
            r matches Err(e) ==> *final(self) == *old(self) && e matches MyceliumError::SporeError(
                _,
            ),
    {
        let hash = self.get_hash();
        match spore.sign(hash.as_str().as_bytes()) {
            Ok(signature) => {
                let ghost sig = signature;
                let r = self.set_attr(Attribute::OriginSignature(signature));
                proof {
                    lemma_sign_preserves_fold(old(self).attributes@, sig);
                    assert(self.spec_digest_input() =~= old(self).spec_digest_input());
                    crate::attributes::lemma_set_attr_exactly_one(
                        old(self).attributes@,
                        Attribute::OriginSignature(sig),
                    );
                }
                r
            },
            Err(e) => Err(MyceliumError::SporeError(e)),
        }
    }

    /// Verifies the node: recomputes its hash and asks the capability to
    /// check it against the stored signature attribute. A node without a
    /// signature attribute fails with the signature-missing error, never
    /// with a capability rejection; a node with one fails only by the
    /// capability's verdict, wrapped as a capability error.
    pub fn verify<T>(&self, spore: &T) -> (r: Result<(), MyceliumError>) where T: Spore
        ensures
            spec_first_attr(self.attributes@, AttrKind::Signature) is None <==> r matches Err(
                MyceliumError::SignatureError(_),
            ),
            r matches Err(e) ==> !(e is SystemTimeError),
            r is Ok ==> spec_first_attr(self.attributes@, AttrKind::Signature) is Some,
    {
        let hash = self.get_hash();
        proof {
            crate::attributes::lemma_search_kind(self.attributes@, AttrKind::Signature, 0);
        }
        match self.get_attr(Attribute::OriginSignature(Vec::new())) {
            Some(attr) => {
                let signature: &Vec<u8> = match attr {
                    Attribute::OriginSignature(signature) => signature,
                    _ => {
                        proof {
                            assert(false);
                        }
                        return Err(MyceliumError::SignatureError(String::from_str(
                            "Missing `OriginSignature` attribute.",
                        )));
                    },
                };
                match spore.verify(hash.as_str().as_bytes(), signature.as_slice()) {
                    Ok(_) => Ok(()),
                    Err(e) => Err(MyceliumError::SporeError(e)),
                }
            },
            None => Err(MyceliumError::SignatureError(String::from_str(
                "Missing `OriginSignature` attribute.",
            ))),
        }
    }
}

/// The attribute sequence with every `OriginSpore` attribute carrying the
/// given identity removed, the order of the rest kept.
pub open spec fn spec_drop_spore(s: Seq<Attribute>, guard: Seq<char>) -> Seq<Attribute>
    decreases s.len(),
{
    if s.len() == 0 {
        Seq::empty()
    } else {
        let rest = spec_drop_spore(s.drop_last(), guard);
        match s.last() {
            Attribute::OriginSpore(p) => if p@ == guard {
                rest
            } else {
                rest.push(s.last())
            },
            _ => rest.push(s.last()),
        }
    }
}

/// The identity a newly added child asserts, if it asserts a full origin;
/// the empty identifier otherwise.
pub open spec fn spec_guard_print(child: &Mycelium) -> Seq<char> {
    if child.spec_has_origin() {
        match spec_last_spore(child.attributes@) {
            Some(p) => p@,
            None => Seq::empty(),
        }
    } else {
        Seq::empty()
    }
}

impl Mycelium {
    /// Appends a child. Before appending, any `OriginSpore` attribute of
    /// this node carrying the child's origin identity is removed, so a node
    /// cannot at once claim that origin and parent a node of that origin.
    /// The last-update attribute is then refreshed; only that refresh can
    /// fail, and the child is appended even then.
    pub fn add(&mut self, mycelium: Mycelium) -> (r: Result<(), MyceliumError>)
        ensures
            final(self).mycelia@ == old(self).mycelia@.push(Hypha::Owned(mycelium)),
            r is Ok ==> exists|t: u128|
                final(self).attributes@ == spec_set_attrs(
                    spec_drop_spore(old(self).attributes@, spec_guard_print(&mycelium)),
                    Attribute::LastUpdate(t),
                ),
            r matches Err(e) ==> final(self).attributes@ == spec_drop_spore(
                old(self).attributes@,
                spec_guard_print(&mycelium),
            ) && e == MyceliumError::SystemTimeError,
    {
        let guard: Sporeprint = match mycelium.get_origin() {
            (Some(sporeprint), Some(_)) => sporeprint.clone(),
            _ => String::new(),
        };
        proof {
            assert(guard@ == spec_guard_print(&mycelium));
        }
        let ghost s = self.attributes@;
        let mut tmp: Vec<Attribute> = Vec::new();
        std::mem::swap(&mut self.attributes, &mut tmp);
        let mut kept: Vec<Attribute> = Vec::new();
        let ghost mut i: int = 0;
        while tmp.len() > 0
            invariant
                0 <= i <= s.len(),
                tmp@ == s.skip(i),
                kept@ == spec_drop_spore(s.take(i), guard@),
            decreases tmp@.len(),
        {
            let a = tmp.remove(0);
            proof {
                assert(a == s[i]);
                assert(s.take(i + 1).drop_last() =~= s.take(i));
                assert(s.take(i + 1).last() == s[i]);
                assert(tmp@ =~= s.skip(i + 1));
            }
            let drop = match &a {
                Attribute::OriginSpore(p) => *p == guard,
                _ => false,
            };
            if !drop {
                kept.push(a);
            }
            proof {
                i = i + 1;
            }
        }
        proof {
            assert(s.take(i) =~= s);
        }
        self.attributes = kept;
        self.mycelia.push(Hypha::Owned(mycelium));
        match self.set_update() {
            Ok(_) => Ok(()),
            Err(e) => Err(e),
        }
    }
}

impl Hypha {
    /// Whether the garbage pass keeps this slot: references always, owned
    /// nodes only when they assert a full origin.
    pub open spec fn spec_kept(&self) -> bool {
        match self {
            Hypha::Owned(m) => m.spec_has_origin(),
            Hypha::Reference(_) => true,
        }
    }

    /// The origin identity and moment an owned child asserts; `None` for
    /// references and for owned children without a full origin.
    pub open spec fn spec_origin_pair(&self) -> Option<(Sporeprint, u128)> {
        match self {
            Hypha::Owned(m) => match (spec_last_spore(m.attributes@), spec_last_moment(
                m.attributes@,
            )) {
                (Some(p), Some(t)) => Some((p, t)),
                _ => None,
            },
            Hypha::Reference(_) => None,
        }
    }
}

/// Whether this slot takes part in deduplication.
pub open spec fn spec_dup(h: Hypha) -> bool {
    h.spec_origin_pair() is Some
}

/// The origin identity of a deduplicating slot.
pub open spec fn spec_slot_print(h: Hypha) -> Seq<char>
    recommends
        spec_dup(h),
{
    match h.spec_origin_pair() {
        Some(pair) => pair.0@,
        None => Seq::empty(),
    }
}

/// The origin moment of a deduplicating slot.
pub open spec fn spec_slot_moment(h: Hypha) -> u128
    recommends
        spec_dup(h),
{
    match h.spec_origin_pair() {
        Some(pair) => pair.1,
        None => 0,
    }
}

/// The garbage pass: drops owned children without a full origin, keeps
/// everything else in order.
pub open spec fn spec_gc(s: Seq<Hypha>) -> Seq<Hypha>
    decreases s.len(),
{
    if s.len() == 0 {
        Seq::empty()
    } else {
        let rest = spec_gc(s.drop_last());
        if s.last().spec_kept() {
            rest.push(s.last())
        } else {
            rest
        }
    }
}

/// Slot `i` survives deduplication exactly when it is the first slot
/// carrying the greatest moment among the slots sharing its origin
/// identity. Slots without a full origin are untouched.
pub open spec fn spec_winner(s: Seq<Hypha>, i: int) -> bool {
    spec_dup(s[i]) ==> forall|j: int|
        0 <= j < s.len() && j != i && spec_dup(#[trigger] s[j]) && spec_slot_print(s[j])
            == spec_slot_print(s[i]) ==> (spec_slot_moment(s[j]) < spec_slot_moment(s[i]) || (
        spec_slot_moment(s[j]) == spec_slot_moment(s[i]) && i < j))
}

/// What deduplication leaves in slot `i`: the slot itself if it survives,
/// else a reference carrying its origin identity.
pub open spec fn spec_dedup_slot(s: Seq<Hypha>, i: int) -> Hypha {
    match s[i].spec_origin_pair() {
        Some(pair) => if spec_winner(s, i) {
            s[i]
        } else {
            Hypha::Reference(pair.0)
        },
        None => s[i],
    }
}

/// The deduplication pass over a children sequence.
pub open spec fn spec_dedup(s: Seq<Hypha>) -> Seq<Hypha> {
    Seq::new(s.len(), |i: int| spec_dedup_slot(s, i))
}

/// Both pruning passes: garbage collection, then deduplication.
pub open spec fn spec_prune(s: Seq<Hypha>) -> Seq<Hypha> {
    spec_dedup(spec_gc(s))
}

/// A record of the best child seen so far for one origin identity.
struct SeenEntry {
    print: Sporeprint,
    index: usize,
    moment: u128,
}

/// Whether an index occurs among the first `n` elements.
spec fn spec_in_prefix(v: Seq<usize>, n: int, j: int) -> bool {
    exists|k: int| 0 <= k < n && v[k] == j
}

/// Whether an index occurs at all.
spec fn spec_in(v: Seq<usize>, j: int) -> bool {
    spec_in_prefix(v, v.len() as int, j)
}

/// Whether some record points at index `j`.
spec fn spec_active(seen: Seq<SeenEntry>, j: int) -> bool {
    exists|k: int| 0 <= k < seen.len() && seen[k].index == j
}

/// Finds the record for an origin identity, if one exists.
fn find_seen(seen: &Vec<SeenEntry>, print: &Sporeprint) -> (r: Option<usize>)
    ensures
        match r {
            Some(k) => (k as int) < seen@.len() && seen@[k as int].print@ == print@,
            None => forall|k: int| 0 <= k < seen@.len() ==> (#[trigger] seen@[k]).print@
                != print@,
        },
{
    let n = seen.len();
    let mut i: usize = 0;
    while i < n
        invariant
            i <= n,
            n == seen@.len(),
            forall|k: int| 0 <= k < i ==> (#[trigger] seen@[k]).print@ != print@,
        decreases n - i,
    {
        if seen[i].print == *print {
            return Some(i);
        }
        i = i + 1;
    }
    None
}

/// Two surviving slots cannot share one origin identity: a slot that
/// survives deduplication is the only survivor for its identity.
proof fn lemma_winner_unique(s: Seq<Hypha>, i: int, j: int)
    requires
        0 <= i < s.len(),
        0 <= j < s.len(),
        spec_dup(s[i]),
        spec_dup(s[j]),
        spec_slot_print(s[i]) == spec_slot_print(s[j]),
        spec_winner(s, i),
        spec_winner(s, j),
    ensures
        i == j,
{
    if i != j {
        assert(spec_slot_moment(s[j]) < spec_slot_moment(s[i]) || (spec_slot_moment(s[j])
            == spec_slot_moment(s[i]) && i < j));
        assert(spec_slot_moment(s[i]) < spec_slot_moment(s[j]) || (spec_slot_moment(s[i])
            == spec_slot_moment(s[j]) && j < i));
    }
}


/// Occurrence in a longer prefix is occurrence in the shorter one or at its
/// new last position.
proof fn lemma_in_prefix_step(v: Seq<usize>, n: int, j: int)
    requires
        0 <= n < v.len(),
    ensures
        spec_in_prefix(v, n + 1, j) <==> (spec_in_prefix(v, n, j) || v[n] == j),
{
    if spec_in_prefix(v, n + 1, j) {
        let k = choose|k: int| 0 <= k < n + 1 && v[k] == j;
        if k < n {
            assert(spec_in_prefix(v, n, j));
        }
    }
    if spec_in_prefix(v, n, j) {
        let k = choose|k: int| 0 <= k < n && v[k] == j;
        assert(0 <= k < n + 1 && v[k] == j);
    }
    if v[n] == j {
        assert(0 <= n < n + 1 && v[n] == j);
    }
}

/// Occurrence in a pushed sequence is occurrence in the old one or equality
/// with the pushed element.
proof fn lemma_in_push(v: Seq<usize>, x: usize, j: int)
    ensures
        spec_in(v.push(x), j) <==> (spec_in(v, j) || j == x as int),
{
    let w = v.push(x);
    if spec_in(w, j) {
        let k = choose|k: int| 0 <= k < w.len() && w[k] == j;
        if k < v.len() {
            assert(v[k] == w[k]);
            assert(spec_in(v, j));
        } else {
            assert(w[k] == x);
        }
    }
    if spec_in(v, j) {
        let k = choose|k: int| 0 <= k < v.len() && v[k] == j;
        assert(w[k] == v[k]);
        assert(0 <= k < w.len() && w[k] == j);
    }
    if j == x as int {
        assert(w[v.len() as int] == x);
        assert(spec_in(w, j));
    }
}

impl Mycelium {
    /// Prunes the children in two passes: owned children without a full
    /// origin are dropped; then, for each origin identity, every owned
    /// child but the first most recently updated one is collapsed into a
    /// reference carrying that identity. The node's own attributes are
    /// untouched.
    pub fn prune(&mut self) -> (r: Result<(), MyceliumError>)
        ensures
            r is Ok,
            final(self).attributes@ == old(self).attributes@,
            final(self).mycelia@ == spec_prune(old(self).mycelia@),
    {
        let ghost orig = self.mycelia@;
        let mut tmp: Vec<Hypha> = Vec::new();
        std::mem::swap(&mut self.mycelia, &mut tmp);
        let ghost s0 = tmp@;
        let mut kept: Vec<Hypha> = Vec::new();
        let ghost mut gi: int = 0;
        while tmp.len() > 0
            invariant
                0 <= gi <= s0.len(),
                tmp@ == s0.skip(gi),
                kept@ == spec_gc(s0.take(gi)),
            decreases tmp@.len(),
        {
            let h = tmp.remove(0);
            proof {
                assert(h == s0[gi]);
                assert(s0.take(gi + 1).drop_last() =~= s0.take(gi));
                assert(s0.take(gi + 1).last() == s0[gi]);
                assert(tmp@ =~= s0.skip(gi + 1));
            }
            let keep = match &h {
                Hypha::Owned(m) => m.has_origin(),
                Hypha::Reference(_) => true,
            };
            if keep {
                kept.push(h);
            }
            proof {
                gi = gi + 1;
            }
        }
        proof {
            assert(s0.take(gi) =~= s0);
        }
        self.mycelia = kept;
        let ghost t = self.mycelia@;
        proof {
            assert(t == spec_gc(orig));
        }

        let mut seen: Vec<SeenEntry> = Vec::new();
        let mut replace: Vec<usize> = Vec::new();
        let n = self.mycelia.len();
        let mut i: usize = 0;
        while i < n
            invariant
                i <= n,
                n == t.len(),
                t == self.mycelia@,
                forall|k: int| 0 <= k < seen@.len() ==> {
                    let e = #[trigger] seen@[k];
                    &&& (e.index as int) < i as int
                    &&& spec_dup(t[e.index as int])
                    &&& spec_slot_print(t[e.index as int]) == e.print@
                    &&& spec_slot_moment(t[e.index as int]) == e.moment
                },
                forall|k1: int, k2: int|
                    0 <= k1 < seen@.len() && 0 <= k2 < seen@.len() && k1 != k2 ==> (
                    #[trigger] seen@[k1]).print@ != (#[trigger] seen@[k2]).print@,
                forall|k: int, j: int|
                    #![trigger seen@[k], t[j]]
                    0 <= k < seen@.len() && 0 <= j < i as int && j != (seen@[k].index as int)
                        && spec_dup(t[j]) && spec_slot_print(t[j]) == seen@[k].print@ ==> (
                    spec_slot_moment(t[j]) < seen@[k].moment || (spec_slot_moment(t[j])
                        == seen@[k].moment && (seen@[k].index as int) < j)),
                forall|j: int|
                    0 <= j < i as int && spec_dup(#[trigger] t[j]) ==> exists|k: int|
                        0 <= k < seen@.len() && (#[trigger] seen@[k]).print@ == spec_slot_print(
                            t[j],
                        ),
                forall|j: int| spec_in(replace@, j) ==> 0 <= j < i as int,
                forall|j: int|
                    0 <= j < i as int ==> (spec_in(replace@, j) <==> (spec_dup(#[trigger] t[j])
                        && !spec_active(seen@, j))),
            decreases n - i,
        {
            let ghost slot = t[i as int];
            let ghost old_seen = seen@;
            let ghost old_replace = replace@;
            match &self.mycelia[i] {
                Hypha::Owned(m) => {
                    match m.get_origin() {
                        (Some(sporeprint), Some(moment)) => {
                            proof {
                                assert(spec_dup(slot));
                                assert(spec_slot_print(slot) == sporeprint@);
                                assert(spec_slot_moment(slot) == *moment);
                            }
                            let mom: u128 = *moment;
                            match find_seen(&seen, sporeprint) {
                                Some(k) => {
                                    let prev_index = seen[k].index;
                                    let prev_moment = seen[k].moment;
                                    if mom > prev_moment {
                                        replace.push(prev_index);
                                        let entry = SeenEntry {
                                            print: sporeprint.clone(),
                                            index: i,
                                            moment: mom,
                                        };
                                        vstd::std_specs::core::index_set(&mut seen, k, entry);
                                        proof {
                                            assert(seen@ == old_seen.update(k as int, entry));
                                            assert(old_seen[k as int].print@ == sporeprint@);
                                            assert forall|k3: int, j: int|
                                                #![trigger seen@[k3], t[j]]
                                                0 <= k3 < seen@.len() && 0 <= j < (i + 1) as int
                                                    && j != (seen@[k3].index as int) && spec_dup(
                                                    t[j],
                                                ) && spec_slot_print(t[j]) == seen@[k3].print@
                                                implies (spec_slot_moment(t[j])
                                                < seen@[k3].moment || (spec_slot_moment(t[j])
                                                == seen@[k3].moment && (seen@[k3].index as int)
                                                < j)) by {
                                                if k3 == k as int {
                                                    if j < i as int {
                                                        if j != prev_index as int {
                                                            assert(spec_slot_moment(t[j])
                                                                < prev_moment || (spec_slot_moment(
                                                                t[j],
                                                            ) == prev_moment && (prev_index
                                                                as int) < j));
                                                        } else {
                                                            assert(spec_slot_moment(t[j])
                                                                == prev_moment);
                                                        }
                                                    }
                                                } else {
                                                    assert(seen@[k3] == old_seen[k3]);
                                                    if j == i as int {
                                                        assert(old_seen[k3].print@ != old_seen[
                                                            k as int].print@);
                                                    }
                                                }
                                            }
                                            assert forall|j: int|
                                                0 <= j < (i + 1) as int && spec_dup(
                                                    #[trigger] t[j],
                                                ) implies exists|k3: int|
                                                0 <= k3 < seen@.len() && (
                                                #[trigger] seen@[k3]).print@ == spec_slot_print(
                                                    t[j],
                                                ) by {
                                                if j == i as int {
                                                    assert(seen@[k as int].print@
                                                        == spec_slot_print(t[j]));
                                                } else {
                                                    let k2 = choose|k2: int|
                                                        0 <= k2 < old_seen.len()
                                                            && old_seen[k2].print@
                                                            == spec_slot_print(t[j]);
                                                    assert(seen@[k2].print@ == spec_slot_print(
                                                        t[j],
                                                    ));
                                                }
                                            }
                                            assert forall|j: int|
                                                spec_in(replace@, j) implies 0 <= j < (i + 1)
                                                as int by {
                                                lemma_in_push(old_replace, prev_index, j);
                                            }
                                            assert forall|j: int| 0 <= j < (i + 1) as int implies (
                                                spec_in(replace@, j) <==> (spec_dup(t[j])
                                                    && !spec_active(seen@, j))) by {
                                                lemma_in_push(old_replace, prev_index, j);
                                                if j == prev_index as int {
                                                    assert forall|k2: int|
                                                        0 <= k2 < seen@.len() implies seen@[k2].index
                                                        != prev_index by {
                                                        if k2 != k as int {
                                                            if old_seen[k2].index == prev_index {
                                                                assert(spec_slot_print(t[
                                                                    prev_index as int])
                                                                    == old_seen[k2].print@);
                                                                assert(old_seen[k2].print@
                                                                    == old_seen[k as int].print@);
                                                            }
                                                        }
                                                    }
                                                    assert(spec_in(replace@, j));
                                                    assert(!spec_active(seen@, j));
                                                } else if j == i as int {
                                                    assert(seen@[k as int].index == i);
                                                    assert(spec_active(seen@, j));
                                                    assert(!spec_in(old_replace, j));
                                                    assert(!spec_in(replace@, j));
                                                } else {
                                                    assert(spec_in(replace@, j) == spec_in(
                                                        old_replace, j));
                                                    if spec_active(old_seen, j) {
                                                        let k2 = choose|k2: int|
                                                            0 <= k2 < old_seen.len()
                                                                && old_seen[k2].index as int == j;
                                                        assert(k2 != k as int);
                                                        assert(seen@[k2].index as int == j);
                                                        assert(spec_active(seen@, j));
                                                    }
                                                    if spec_active(seen@, j) {
                                                        let k2 = choose|k2: int|
                                                            0 <= k2 < seen@.len()
                                                                && seen@[k2].index as int == j;
                                                        assert(k2 != k as int);
                                                        assert(old_seen[k2].index as int == j);
                                                        assert(spec_active(old_seen, j));
                                                    }
                                                    assert(spec_active(seen@, j) == spec_active(
                                                        old_seen, j));
                                                }
                                            }
                                        }
                                    } else {
                                        replace.push(i);
                                        proof {
                                            assert(old_seen[k as int].print@ == sporeprint@);
                                            assert forall|k3: int, j: int|
                                                #![trigger seen@[k3], t[j]]
                                                0 <= k3 < seen@.len() && 0 <= j < (i + 1) as int
                                                    && j != (seen@[k3].index as int) && spec_dup(
                                                    t[j],
                                                ) && spec_slot_print(t[j]) == seen@[k3].print@
                                                implies (spec_slot_moment(t[j])
                                                < seen@[k3].moment || (spec_slot_moment(t[j])
                                                == seen@[k3].moment && (seen@[k3].index as int)
                                                < j)) by {
                                                if j == i as int {
                                                    assert(spec_slot_print(t[j]) == sporeprint@);
                                                    if k3 != k as int {
                                                        assert(seen@[k3].print@ != seen@[
                                                            k as int].print@);
                                                    }
                                                    assert(k3 == k as int);
                                                    assert(spec_slot_moment(t[j]) == mom);
                                                    assert(mom <= prev_moment);
                                                    assert((seen@[k3].index as int) < i as int);
                                                }
                                            }
                                            assert forall|j: int|
                                                0 <= j < (i + 1) as int && spec_dup(
                                                    #[trigger] t[j],
                                                ) implies exists|k3: int|
                                                0 <= k3 < seen@.len() && (
                                                #[trigger] seen@[k3]).print@ == spec_slot_print(
                                                    t[j],
                                                ) by {
                                                if j == i as int {
                                                    assert(seen@[k as int].print@
                                                        == spec_slot_print(t[j]));
                                                } else {
                                                    let k2 = choose|k2: int|
                                                        0 <= k2 < old_seen.len()
                                                            && old_seen[k2].print@
                                                            == spec_slot_print(t[j]);
                                                    assert(seen@[k2].print@ == spec_slot_print(
                                                        t[j],
                                                    ));
                                                }
                                            }
                                            assert forall|j: int|
                                                spec_in(replace@, j) implies 0 <= j < (i + 1)
                                                as int by {
                                                lemma_in_push(old_replace, i, j);
                                            }
                                            assert forall|j: int| 0 <= j < (i + 1) as int implies (
                                                spec_in(replace@, j) <==> (spec_dup(t[j])
                                                    && !spec_active(seen@, j))) by {
                                                lemma_in_push(old_replace, i, j);
                                                if j == i as int {
                                                    assert(spec_in(replace@, j));
                                                    assert forall|k2: int|
                                                        0 <= k2 < seen@.len() implies seen@[k2].index
                                                        != i by {}
                                                    assert(!spec_active(seen@, j));
                                                }
                                            }
                                        }
                                    }
                                },
                                None => {
                                    let entry = SeenEntry {
                                        print: sporeprint.clone(),
                                        index: i,
                                        moment: mom,
                                    };
                                    seen.push(entry);
                                    proof {
                                        assert(seen@ == old_seen.push(entry));
                                        assert forall|j: int|
                                            0 <= j < i as int && spec_dup(t[j])
                                                && spec_slot_print(t[j]) == sporeprint@ implies
                                            false by {
                                            let k2 = choose|k2: int|
                                                0 <= k2 < old_seen.len() && old_seen[k2].print@
                                                    == spec_slot_print(t[j]);
                                        }
                                        assert forall|k3: int, j: int|
                                            #![trigger seen@[k3], t[j]]
                                            0 <= k3 < seen@.len() && 0 <= j < (i + 1) as int
                                                && j != (seen@[k3].index as int) && spec_dup(
                                                t[j],
                                            ) && spec_slot_print(t[j]) == seen@[k3].print@
                                            implies (spec_slot_moment(t[j]) < seen@[k3].moment
                                                || (spec_slot_moment(t[j]) == seen@[k3].moment
                                                && (seen@[k3].index as int) < j)) by {
                                            if k3 == old_seen.len() as int {
                                                assert(seen@[k3] == entry);
                                                if j < i as int {
                                                    assert(spec_slot_print(t[j]) == sporeprint@);
                                                    assert(false);
                                                }
                                            } else {
                                                assert(seen@[k3] == old_seen[k3]);
                                                if j == i as int {
                                                    assert(old_seen[k3].print@ != sporeprint@);
                                                }
                                            }
                                        }
                                        assert forall|j: int|
                                            0 <= j < (i + 1) as int && spec_dup(#[trigger] t[j])
                                            implies exists|k3: int|
                                            0 <= k3 < seen@.len() && (#[trigger] seen@[k3]).print@
                                                == spec_slot_print(t[j]) by {
                                            if j == i as int {
                                                assert(seen@[old_seen.len() as int].print@
                                                    == spec_slot_print(t[j]));
                                            } else {
                                                let k2 = choose|k2: int|
                                                    0 <= k2 < old_seen.len() && old_seen[k2].print@
                                                        == spec_slot_print(t[j]);
                                                assert(seen@[k2].print@ == spec_slot_print(t[j]));
                                            }
                                        }
                                        assert forall|j: int| 0 <= j < (i + 1) as int implies (
                                            spec_in(replace@, j) <==> (spec_dup(t[j])
                                                && !spec_active(seen@, j))) by {
                                            if j == i as int {
                                                assert(seen@[old_seen.len() as int].index == i);
                                                assert(spec_active(seen@, j));
                                                assert(!spec_in(replace@, j));
                                            } else {
                                                if spec_active(old_seen, j) {
                                                    let k2 = choose|k2: int|
                                                        0 <= k2 < old_seen.len()
                                                            && old_seen[k2].index as int == j;
                                                    assert(seen@[k2].index as int == j);
                                                    assert(spec_active(seen@, j));
                                                }
                                                if spec_active(seen@, j) {
                                                    let k2 = choose|k2: int|
                                                        0 <= k2 < seen@.len()
                                                            && seen@[k2].index as int == j;
                                                    assert(k2 < old_seen.len());
                                                    assert(spec_active(old_seen, j));
                                                }
                                                assert(spec_active(seen@, j) == spec_active(
                                                    old_seen, j));
                                            }
                                        }
                                    }
                                },
                            }
                        },
                        _ => {
                            proof {
                                assert(!spec_dup(slot));
                            }
                        },
                    }
                },
                Hypha::Reference(_) => {
                    proof {
                        assert(!spec_dup(slot));
                    }
                },
            }
            i = i + 1;
        }

        proof {
            assert forall|j: int|
                spec_in(replace@, j) implies 0 <= j < t.len() && spec_dup(#[trigger] t[j])
                && !spec_winner(t, j) by {
                if spec_winner(t, j) {
                    let k = choose|k: int|
                        0 <= k < seen@.len() && seen@[k].print@ == spec_slot_print(t[j]);
                    let e_index = seen@[k].index as int;
                    assert(spec_winner(t, e_index));
                    lemma_winner_unique(t, j, e_index);
                    assert(spec_active(seen@, j));
                }
            }
            assert forall|j: int|
                0 <= j < t.len() && spec_dup(#[trigger] t[j]) && !spec_winner(t, j) implies
                spec_in(replace@, j) by {
                if spec_active(seen@, j) {
                    let k = choose|k: int| 0 <= k < seen@.len() && seen@[k].index as int == j;
                    assert(spec_winner(t, j));
                }
            }
        }

        let rn = replace.len();
        let mut ri: usize = 0;
        while ri < rn
            invariant
                ri <= rn,
                rn == replace@.len(),
                self.attributes@ == old(self).attributes@,
                self.mycelia@.len() == t.len(),
                forall|j: int|
                    spec_in(replace@, j) ==> 0 <= j < t.len() && spec_dup(#[trigger] t[j])
                        && !spec_winner(t, j),
                forall|j: int|
                    0 <= j < t.len() && spec_dup(#[trigger] t[j]) && !spec_winner(t, j)
                        ==> spec_in(replace@, j),
                forall|j: int|
                    0 <= j < t.len() ==> #[trigger] self.mycelia@[j] == (if spec_in_prefix(
                        replace@,
                        ri as int,
                        j,
                    ) {
                        spec_dedup_slot(t, j)
                    } else {
                        t[j]
                    }),
            decreases rn - ri,
        {
            let idx = replace[ri];
            proof {
                assert(replace@[ri as int] == idx);
                assert(spec_in(replace@, idx as int));
            }
            let print_opt: Option<Sporeprint> = match &self.mycelia[idx] {
                Hypha::Owned(m) => {
                    match m.get_origin() {
                        (Some(sporeprint), _) => Some(sporeprint.clone()),
                        _ => None,
                    }
                },
                Hypha::Reference(_) => None,
            };
            let ghost before = self.mycelia@;
            match print_opt {
                Some(p) => {
                    proof {
                        assert(before[idx as int] is Owned);
                        assert(!spec_in_prefix(replace@, ri as int, idx as int));
                        assert(before[idx as int] == t[idx as int]);
                    }
                    vstd::std_specs::core::index_set(
                        &mut self.mycelia,
                        idx,
                        Hypha::Reference(p),
                    );
                    proof {
                        assert(self.mycelia@ == before.update(idx as int, Hypha::Reference(p)));
                        assert forall|j: int| 0 <= j < t.len() implies #[trigger] self.mycelia@[j]
                            == (if spec_in_prefix(replace@, ri + 1, j) {
                            spec_dedup_slot(t, j)
                        } else {
                            t[j]
                        }) by {
                            lemma_in_prefix_step(replace@, ri as int, j);
                            if j == idx as int {
                                assert(spec_dedup_slot(t, j) == Hypha::Reference(p));
                            }
                        }
                    }
                },
                None => {
                    proof {
                        assert(before[idx as int] is Reference);
                        assert(t[idx as int] is Owned);
                        assert(spec_in_prefix(replace@, ri as int, idx as int));
                        assert forall|j: int| 0 <= j < t.len() implies #[trigger] self.mycelia@[j]
                            == (if spec_in_prefix(replace@, ri + 1, j) {
                            spec_dedup_slot(t, j)
                        } else {
                            t[j]
                        }) by {
                            lemma_in_prefix_step(replace@, ri as int, j);
                        }
                    }
                },
            }
            ri = ri + 1;
        }
        proof {
            assert forall|j: int| 0 <= j < t.len() implies self.mycelia@[j] == spec_dedup_slot(
                t,
                j,
            ) by {
                if spec_in_prefix(replace@, rn as int, j) {
                } else {
                    assert(!(spec_dup(t[j]) && !spec_winner(t, j)));
                }
            }
            assert(self.mycelia@ =~= spec_dedup(t));
        }
        Ok(())
    }
}


/// Every slot the garbage pass emits is a kept slot.
proof fn lemma_gc_elements(s: Seq<Hypha>)
    ensures
        forall|i: int| 0 <= i < spec_gc(s).len() ==> (#[trigger] spec_gc(s)[i]).spec_kept(),
    decreases s.len(),
{
    if s.len() != 0 {
        lemma_gc_elements(s.drop_last());
        let rest = spec_gc(s.drop_last());
        if s.last().spec_kept() {
            assert forall|i: int| 0 <= i < spec_gc(s).len() implies (
            #[trigger] spec_gc(s)[i]).spec_kept() by {
                if i < rest.len() {
                    assert(spec_gc(s)[i] == rest[i]);
                } else {
                    assert(spec_gc(s)[i] == s.last());
                }
            }
        }
    }
}

/// The garbage pass leaves a sequence of kept slots unchanged.
proof fn lemma_gc_noop(s: Seq<Hypha>)
    requires
        forall|i: int| 0 <= i < s.len() ==> (#[trigger] s[i]).spec_kept(),
    ensures
        spec_gc(s) == s,
    decreases s.len(),
{
    if s.len() != 0 {
        assert forall|i: int| 0 <= i < s.drop_last().len() implies (
        #[trigger] s.drop_last()[i]).spec_kept() by {
            assert(s.drop_last()[i] == s[i]);
        }
        lemma_gc_noop(s.drop_last());
        assert(s.last().spec_kept());
        assert(spec_gc(s) =~= s);
    }
}

/// Pruning is idempotent: pruning already pruned children changes nothing,
/// so pruning a tree twice yields the structure (and hence the hash) that
/// one pruning yields.
pub proof fn lemma_prune_idempotent(s: Seq<Hypha>)
    ensures
        spec_prune(spec_prune(s)) == spec_prune(s),
{
    let t = spec_gc(s);
    let d = spec_dedup(t);
    lemma_gc_elements(s);
    assert forall|i: int| 0 <= i < d.len() implies (#[trigger] d[i]).spec_kept() by {
        assert(d[i] == spec_dedup_slot(t, i));
        match t[i].spec_origin_pair() {
            Some(pair) => {
                if spec_winner(t, i) {
                    assert(d[i] == t[i]);
                } else {
                    assert(d[i] == Hypha::Reference(pair.0));
                }
            },
            None => {
                assert(d[i] == t[i]);
            },
        }
    }
    lemma_gc_noop(d);
    assert forall|i: int| 0 <= i < d.len() implies spec_dedup_slot(d, i) == d[i] by {
        if spec_dup(d[i]) {
            assert(d[i] == spec_dedup_slot(t, i));
            assert(spec_dup(t[i]) && spec_winner(t, i) && d[i] == t[i]);
            assert forall|j: int|
                0 <= j < d.len() && j != i && spec_dup(#[trigger] d[j]) && spec_slot_print(d[j])
                    == spec_slot_print(d[i]) implies false by {
                assert(d[j] == spec_dedup_slot(t, j));
                assert(spec_dup(t[j]) && spec_winner(t, j) && d[j] == t[j]);
                lemma_winner_unique(t, i, j);
            }
            assert(spec_winner(d, i));
        }
    }
    assert(spec_dedup(d) =~= d);
    assert(spec_prune(spec_prune(s)) == spec_prune(s));
}

/// Whether a single child slot matches the identifier directly: an owned
/// child by its asserted origin identity, a reference by its stored one.
pub open spec fn spec_direct_hit(h: Hypha, print: Seq<char>) -> bool {
    match h {
        Hypha::Owned(c) => match spec_last_spore(c.attributes@) {
            Some(p) => p@ == print,
            None => false,
        },
        Hypha::Reference(q) => q@ == print,
    }
}

proof fn lemma_scan_depth_one_from(m: &Mycelium, print: Seq<char>, j: int)
    requires
        0 <= j <= m.mycelia@.len(),
    ensures
        m.spec_found_from(print, 1, j) <==> exists|k: int|
            j <= k < m.mycelia@.len() && spec_direct_hit(#[trigger] m.mycelia@[k], print),
    decreases m.mycelia@.len() - j,
{
    if j < m.mycelia@.len() {
        lemma_scan_depth_one_from(m, print, j + 1);
        if spec_direct_hit(m.mycelia@[j], print) {
            assert(m.spec_found_from(print, 1, j));
        }
        if m.spec_found_from(print, 1, j) {
            if !spec_direct_hit(m.mycelia@[j], print) {
                assert(m.spec_found_from(print, 1, j + 1));
            }
        }
    }
}

/// A search with a budget of one reaches the direct children alone: it
/// succeeds exactly when some direct child slot matches the identifier,
/// whatever the grandchildren hold.
pub proof fn lemma_scan_depth_one(m: &Mycelium, print: Seq<char>)
    ensures
        m.spec_found(print, 1) <==> exists|k: int|
            0 <= k < m.mycelia@.len() && spec_direct_hit(#[trigger] m.mycelia@[k], print),
{
    lemma_scan_depth_one_from(m, print, 0);
}

} // verus!
