//! Checkers, which decide whether bytes are of a type, and the registry
//! that finds the checker in charge of a type.

use crate::hierarchy::{graph_init, names, relations, TypeStruct};
use crate::index::{index_entries, index_get, index_insert, index_new};
use crate::mime::same_text;
use fnv::FnvHashMap;
use vstd::prelude::*;

verus! {

/// A byte pattern of a type: data is of type `mime` where it begins with
/// `magic`.
pub struct Signature {
    pub mime: String,
    pub magic: Vec<u8>,
}

/// One detection strategy: the types it supports, the (child, parent)
/// relations it declares and the signatures it tests by.
pub struct Checker {
    pub supported: Vec<String>,
    pub subclasses: Vec<(String, String)>,
    pub signatures: Vec<Signature>,
}

/// Whether `bytes` begins with `magic`.
pub fn starts_with(bytes: &[u8], magic: &Vec<u8>) -> (r: bool)
    ensures
        r == magic@.is_prefix_of(bytes@),
{
    if bytes.len() < magic.len() {
        return false;
    }
    let mut i: usize = 0;
    while i < magic.len()
        invariant
            i <= magic.len(),
            magic.len() <= bytes.len(),
            magic@.take(i as int) == bytes@.take(i as int),
        decreases magic.len() - i,
    {
        if bytes[i] != magic[i] {
            proof {
                assert(bytes@.subrange(0, magic@.len() as int)[i as int] == bytes@[i as int]);
            }
            return false;
        }
        proof {
            assert(magic@.take(i + 1) == magic@.take(i as int).push(magic@[i as int]));
            assert(bytes@.take(i + 1) == bytes@.take(i as int).push(bytes@[i as int]));
        }
        i += 1;
    }
    proof {
        assert(magic@.take(magic.len() as int) == magic@);
        assert(bytes@.take(magic.len() as int) == bytes@.subrange(0, magic@.len() as int));
    }
    true
}

impl Checker {
    /// Whether the checker lists `mime` among its supported types.
    pub open spec fn supports(&self, mime: Seq<char>) -> bool {
        exists|i: int| 0 <= i < self.supported@.len() && (#[trigger] self.supported@[i])@ == mime
    }

    /// Whether signature `i` says that `bytes` is of type `mime`.
    pub open spec fn signature_matches(&self, i: int, mime: Seq<char>, bytes: Seq<u8>) -> bool {
        self.signatures@[i].mime@ == mime && self.signatures@[i].magic@.is_prefix_of(bytes)
    }

    /// Whether some signature of type `mime` fits `bytes`.
    pub open spec fn matches(&self, mime: Seq<char>, bytes: Seq<u8>) -> bool {
        exists|i: int|
            0 <= i < self.signatures@.len() && #[trigger] self.signature_matches(i, mime, bytes)
    }

    /// Decides whether `bytes` is of type `mime` by this checker's
    /// signatures.
    pub fn from_u8(&self, bytes: &[u8], mime: &str) -> (r: bool)
        ensures
            r == self.matches(mime@, bytes@),
    {
        let mut i: usize = 0;
        while i < self.signatures.len()
            invariant
                i <= self.signatures.len(),
                forall|k: int| 0 <= k < i ==> !#[trigger] self.signature_matches(k, mime@, bytes@),
            decreases self.signatures.len() - i,
        {
            let signature = &self.signatures[i];
            if same_text(signature.mime.as_str(), mime) && starts_with(bytes, &signature.magic) {
                proof {
                    assert(self.signature_matches(i as int, mime@, bytes@));
                }
                return true;
            }
            i += 1;
        }
        false
    }
}

/// The checker in charge of `mime` among the first `n`: the last of them
/// that supports it.
pub open spec fn owner_among(checkers: Seq<Checker>, n: int, mime: Seq<char>) -> Option<usize>
    decreases n,
{
    if n <= 0 {
        None
    } else if checkers[n - 1].supports(mime) {
        Some((n - 1) as usize)
    } else {
        owner_among(checkers, n - 1, mime)
    }
}

/// What a lookup of `mime` in `entries` gives.
pub open spec fn lookup(entries: Map<Seq<char>, usize>, mime: Seq<char>) -> Option<usize> {
    if entries.dom().contains(mime) {
        Some(entries[mime])
    } else {
        None
    }
}

/// The checkers in the order of their registration, and for every supported
/// type the checker in charge of it.
pub struct Registry {
    pub checkers: Vec<Checker>,
    pub support: FnvHashMap<String, usize>,
}

impl Registry {
    /// The checker in charge of `mime`: of those that support it, the one
    /// registered last.
    pub open spec fn owner(&self, mime: Seq<char>) -> Option<usize> {
        owner_among(self.checkers@, self.checkers@.len() as int, mime)
    }

    /// The invariant of a registry: `support` holds the owner of every type
    /// that has one, and nothing else.
    pub open spec fn wf(&self) -> bool {
        forall|mime: Seq<char>| #[trigger]
            lookup(index_entries(self.support), mime) == self.owner(mime)
    }

    /// Whether the checker in charge of `mime` says that `bytes` is of that
    /// type. A type that no checker supports matches nothing.
    pub open spec fn matches(&self, mime: Seq<char>, bytes: Seq<u8>) -> bool {
        match self.owner(mime) {
            Some(i) => self.checkers@[i as int].matches(mime, bytes),
            None => false,
        }
    }

    /// Registers the checkers in the given order. Where two of them support
    /// one type, the later is in charge of it.
    pub fn new(checkers: Vec<Checker>) -> (r: Registry)
        ensures
            r.wf(),
            r.checkers == checkers,
    {
        let mut support = index_new();
        let mut i: usize = 0;
        while i < checkers.len()
            invariant
                i <= checkers.len(),
                forall|mime: Seq<char>| #[trigger]
                    lookup(index_entries(support), mime) == owner_among(checkers@, i as int, mime),
            decreases checkers.len() - i,
        {
            let checker = &checkers[i];
            let mut j: usize = 0;
            while j < checker.supported.len()
                invariant
                    i < checkers.len(),
                    checker == &checkers[i as int],
                    j <= checker.supported.len(),
                    forall|mime: Seq<char>| #[trigger]
                        lookup(index_entries(support), mime) == (if exists|k: int|
                            0 <= k < j && (#[trigger] checker.supported@[k])@ == mime {
                            Some(i)
                        } else {
                            owner_among(checkers@, i as int, mime)
                        }),
                decreases checker.supported.len() - j,
            {
                let ghost before = index_entries(support);
                index_insert(&mut support, checker.supported[j].clone(), i);
                proof {
                    assert forall|mime: Seq<char>| #[trigger]
                        lookup(index_entries(support), mime) == (if exists|k: int|
                            0 <= k < j + 1 && (#[trigger] checker.supported@[k])@ == mime {
                            Some(i)
                        } else {
                            owner_among(checkers@, i as int, mime)
                        }) by {
                        if exists|k: int| 0 <= k < j && (#[trigger] checker.supported@[k])@ == mime {
                            let k = choose|k: int|
                                0 <= k < j && (#[trigger] checker.supported@[k])@ == mime;
                            assert(0 <= k < j + 1 && checker.supported@[k]@ == mime);
                        }
                        let name = checker.supported@[j as int];
                        let prior = lookup(before, mime);
                        assert(prior == (if exists|k: int|
                            0 <= k < j && (#[trigger] checker.supported@[k])@ == mime {
                            Some(i)
                        } else {
                            owner_among(checkers@, i as int, mime)
                        }));
                        if name@ == mime {
                            assert(0 <= j < j + 1 && checker.supported@[j as int]@ == mime);
                        }
                        if exists|k: int|
                            0 <= k < j + 1 && (#[trigger] checker.supported@[k])@ == mime {
                            let k = choose|k: int|
                                0 <= k < j + 1 && (#[trigger] checker.supported@[k])@ == mime;
                            if k < j {
                                assert(0 <= k < j && checker.supported@[k]@ == mime);
                            }
                        }
                        assert(index_entries(support) == before.insert(name@, i));
                    }
                }
                j += 1;
            }
            i += 1;
        }
        Registry { checkers, support }
    }

    /// The number of the checker in charge of `mime`, if there is one.
    pub fn find(&self, mime: &str) -> (r: Option<usize>)
        requires
            self.wf(),
        ensures
            r == self.owner(mime@),
            r.is_some() ==> r.unwrap() < self.checkers@.len(),
    {
        proof {
            assert(lookup(index_entries(self.support), mime@) == self.owner(mime@));
            owner_is_registered(self.checkers@, self.checkers.len() as int, mime@);
        }
        index_get(&self.support, mime)
    }
}

/// The checker in charge of a type is one of those registered, and supports
/// the type.
pub proof fn owner_is_registered(checkers: Seq<Checker>, n: int, mime: Seq<char>)
    requires
        n <= checkers.len() <= usize::MAX,
    ensures
        owner_among(checkers, n, mime).is_some() ==> owner_among(checkers, n, mime).unwrap() < n
            && checkers[owner_among(checkers, n, mime).unwrap() as int].supports(mime),
    decreases n,
{
    if n > 0 && !checkers[n - 1].supports(mime) {
        owner_is_registered(checkers, n - 1, mime);
    }
}

/// Checks if the given bytes match the given type.
///
/// The answer is that of the checker in charge of the type. For a type that
/// is not known the answer is `false`.
pub fn match_u8(registry: &Registry, mimetype: &str, bytes: &[u8]) -> (r: bool)
    requires
        registry.wf(),
    ensures
        r == registry.matches(mimetype@, bytes@),
{
    match registry.find(mimetype) {
        None => false,
        Some(x) => registry.checkers[x].from_u8(bytes, mimetype),
    }
}

/// The supported types of the first `n` checkers, in the order of the
/// checkers.
pub open spec fn all_supported(checkers: Seq<Checker>, n: int) -> Seq<Seq<char>>
    decreases n,
{
    if n <= 0 {
        Seq::empty()
    } else {
        all_supported(checkers, n - 1) + names(checkers[n - 1].supported@)
    }
}

/// The (child, parent) relations of the first `n` checkers, in the order of
/// the checkers.
pub open spec fn all_relations(checkers: Seq<Checker>, n: int) -> Seq<(Seq<char>, Seq<char>)>
    decreases n,
{
    if n <= 0 {
        Seq::empty()
    } else {
        all_relations(checkers, n - 1) + relations(checkers[n - 1].subclasses@)
    }
}

/// Builds the hierarchy of all types and relations of the given checkers.
///
/// Returns `None` where the types and relations, with the four fallback
/// types, are too many to be counted in 32 bits.
pub fn load_types(checkers: &Vec<Checker>) -> (r: Option<TypeStruct>)
    ensures
        r.is_some() <==> all_supported(checkers@, checkers@.len() as int).len() + all_relations(
            checkers@,
            checkers@.len() as int,
        ).len() + 4 < u32::MAX,
        r.is_some() ==> r.unwrap().is_hierarchy_of(
            all_supported(checkers@, checkers@.len() as int),
            all_relations(checkers@, checkers@.len() as int),
        ),
{
    let limit: usize = u32::MAX as usize - 4;
    let mut supported: Vec<String> = Vec::new();
    let mut subclasses: Vec<(String, String)> = Vec::new();
    let mut i: usize = 0;
    proof {
        assert(names(supported@) == all_supported(checkers@, 0));
        assert(relations(subclasses@) == all_relations(checkers@, 0));
    }
    while i < checkers.len()
        invariant
            i <= checkers.len(),
            limit == u32::MAX - 4,
            names(supported@) == all_supported(checkers@, i as int),
            relations(subclasses@) == all_relations(checkers@, i as int),
            supported@.len() + subclasses@.len() < limit,
        ensures
            i <= checkers.len(),
            names(supported@) == all_supported(checkers@, i as int),
            relations(subclasses@) == all_relations(checkers@, i as int),
            i == checkers.len() ==> supported@.len() + subclasses@.len() < limit,
            i < checkers.len() ==> all_supported(checkers@, checkers@.len() as int).len()
                + all_relations(checkers@, checkers@.len() as int).len() >= limit,
        decreases checkers.len() - i,
    {
        let checker = &checkers[i];
        let ghost types = names(supported@);
        let ghost pairs = relations(subclasses@);
        let room = limit - supported.len() - subclasses.len();
        if checker.supported.len() >= room || checker.subclasses.len() >= room
            - checker.supported.len() {
            proof {
                grows(checkers@, i + 1, checkers@.len() as int);
                assert(names(checker.supported@).len() == checker.supported@.len());
                assert(relations(checker.subclasses@).len() == checker.subclasses@.len());
                assert(types.len() == supported@.len());
                assert(pairs.len() == subclasses@.len());
            }
            break ;
        }
        let mut j: usize = 0;
        while j < checker.supported.len()
            invariant
                j <= checker.supported.len(),
                supported@.len() == types.len() + j,
                names(supported@) == types + names(checker.supported@.take(j as int)),
            decreases checker.supported.len() - j,
        {
            let ghost before = supported@;
            supported.push(checker.supported[j].clone());
            proof {
                let added = checker.supported@[j as int];
                assert(checker.supported@.take(j + 1) == checker.supported@.take(j as int).push(
                    added,
                ));
                assert(names(checker.supported@.take(j + 1)) == names(
                    checker.supported@.take(j as int),
                ).push(added@));
                assert(names(supported@) == names(before).push(added@));
                assert(names(supported@) == types + names(checker.supported@.take(j + 1)));
            }
            j += 1;
        }
        let mut k: usize = 0;
        while k < checker.subclasses.len()
            invariant
                k <= checker.subclasses.len(),
                subclasses@.len() == pairs.len() + k,
                relations(subclasses@) == pairs + relations(checker.subclasses@.take(k as int)),
            decreases checker.subclasses.len() - k,
        {
            let ghost before = subclasses@;
            let pair = &checker.subclasses[k];
            subclasses.push((pair.0.clone(), pair.1.clone()));
            proof {
                let added = checker.subclasses@[k as int];
                assert(checker.subclasses@.take(k + 1) == checker.subclasses@.take(k as int).push(
                    added,
                ));
                assert(relations(checker.subclasses@.take(k + 1)) == relations(
                    checker.subclasses@.take(k as int),
                ).push((added.0@, added.1@)));
                assert(relations(subclasses@) == relations(before).push((added.0@, added.1@)));
                assert(relations(subclasses@) == pairs + relations(
                    checker.subclasses@.take(k + 1),
                ));
            }
            k += 1;
        }
        proof {
            assert(checker.supported@.take(checker.supported@.len() as int) == checker.supported@);
            assert(checker.subclasses@.take(checker.subclasses@.len() as int)
                == checker.subclasses@);
            assert(types.len() == supported@.len() - checker.supported@.len());
            assert(pairs.len() == subclasses@.len() - checker.subclasses@.len());
        }
        i += 1;
    }
    if i < checkers.len() {
        None
    } else {
        Some(graph_init(&supported, &subclasses))
    }
}

/// The lists of types and relations do not get shorter with more checkers.
proof fn grows(checkers: Seq<Checker>, n: int, m: int)
    requires
        0 <= n <= m,
    ensures
        all_supported(checkers, n).len() <= all_supported(checkers, m).len(),
        all_relations(checkers, n).len() <= all_relations(checkers, m).len(),
    decreases m - n,
{
    if n < m {
        grows(checkers, n, m - 1);
    }
}

} // verus!
