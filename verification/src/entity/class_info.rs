//! Network class information: the numeric class IDs of a demo and the
//! network names of their serializers.

use vstd::prelude::*;

use rustc_hash::{FxBuildHasher, FxHashMap};

use crate::error::{failure_is, Error, Failure};
use crate::limits::{DecodeLimits, LimitsModel};
use crate::text::{digits, push_decimal, push_signed, signed_digits};

verus! {

/// `rustc_hash::FxBuildHasher`, the hasher of the class indexes.
#[verifier::external_type_specification]
#[verifier::external_body]
pub struct ExFxBuildHasher(FxBuildHasher);

/// Class IDs by network name.
pub type NameIndex = FxHashMap<String, i32>;

/// Class positions by class ID.
pub type IdIndex = FxHashMap<usize, usize>;

/// What a name index holds: each network name, by its characters, and the
/// class ID stored for it.
pub uninterp spec fn name_index(m: NameIndex) -> Map<Seq<char>, i32>;

/// What an ID index holds: each class ID and the position stored for it.
pub uninterp spec fn id_index(m: IdIndex) -> Map<usize, usize>;

/// An empty name index.
///
/// Calls `FxHashMap::default` (`std::collections::HashMap::default` with
/// rustc-hash's hasher), which holds no entries.
#[verifier::external_body]
fn new_name_index() -> (r: NameIndex)
    ensures
        name_index(r).dom() == Set::<Seq<char>>::empty(),
{
    FxHashMap::default()
}

/// Store `id` under `name`.
///
/// Calls `HashMap::insert`: the entry for the name is set to the ID, and
/// the ID stored before for an equal name is returned, or `None` when
/// there was none. Two `String` keys are equal when their characters are.
#[verifier::external_body]
fn insert_name(m: &mut NameIndex, name: String, id: i32) -> (r: Option<i32>)
    ensures
        name_index(*final(m)) == name_index(*old(m)).insert(name@, id),
        r == (if name_index(*old(m)).contains_key(name@) {
            Some(name_index(*old(m))[name@])
        } else {
            None
        }),
{
    m.insert(name, id)
}

/// The ID stored under `name`.
///
/// Calls `HashMap::get` with a `&str` key and copies the value: the stored
/// value for the equal name, or `None` when there is none.
#[verifier::external_body]
fn id_by_name(m: &NameIndex, name: &str) -> (r: Option<i32>)
    ensures
        r == (if name_index(*m).contains_key(name@) {
            Some(name_index(*m)[name@])
        } else {
            None
        }),
{
    m.get(name).copied()
}

/// An empty ID index.
///
/// Calls `FxHashMap::default`, which holds no entries.
#[verifier::external_body]
fn new_id_index() -> (r: IdIndex)
    ensures
        id_index(r).dom() == Set::<usize>::empty(),
{
    FxHashMap::default()
}

/// Store `position` under `id`.
///
/// Calls `HashMap::insert`: the entry for the ID is set to the position,
/// and the position stored before is returned, or `None` when there was
/// none.
#[verifier::external_body]
fn insert_id(m: &mut IdIndex, id: usize, position: usize) -> (r: Option<usize>)
    ensures
        id_index(*final(m)) == id_index(*old(m)).insert(id, position),
        r == (if id_index(*old(m)).contains_key(id) {
            Some(id_index(*old(m))[id])
        } else {
            None
        }),
{
    m.insert(id, position)
}

/// A single network entity class entry.
#[derive(Debug, Clone)]
#[non_exhaustive]
pub struct ClassEntry {
    /// Numeric class ID.
    pub class_id: i32,
    /// Name of the class's network serializer.
    pub network_name: String,
    /// Name of the class's send table.
    pub table_name: String,
}

/// A class entry as values.
pub struct ClassModel {
    pub class_id: i32,
    pub network_name: Seq<char>,
    pub table_name: Seq<char>,
}

impl View for ClassEntry {
    type V = ClassModel;

    open spec fn view(&self) -> ClassModel {
        ClassModel {
            class_id: self.class_id,
            network_name: self.network_name@,
            table_name: self.table_name@,
        }
    }
}

impl ClassEntry {
    /// Construct a neutral class entry from a game protobuf adapter.
    pub fn new(class_id: i32, network_name: &str, table_name: &str) -> (r: Self)
        ensures
            r@ == (ClassModel { class_id, network_name: network_name@, table_name: table_name@ }),
    {
        ClassEntry {
            class_id,
            network_name: String::from_str(network_name),
            table_name: String::from_str(table_name),
        }
    }
}

/// The views of a list of class entries.
pub open spec fn classes_view(classes: Seq<ClassEntry>) -> Seq<ClassModel> {
    classes.map_values(|c: ClassEntry| c@)
}

/// Index of the first class before `k` with ID `id`.
pub open spec fn first_with_id(classes: Seq<ClassModel>, k: int, id: i32) -> Option<nat>
    decreases k,
{
    if k <= 0 {
        None
    } else {
        match first_with_id(classes, k - 1, id) {
            Some(j) => Some(j),
            None => if classes[k - 1].class_id == id {
                Some((k - 1) as nat)
            } else {
                None
            },
        }
    }
}

/// Index of the first class before `k` with network name `name`.
pub open spec fn first_with_name(classes: Seq<ClassModel>, k: int, name: Seq<char>) -> Option<nat>
    decreases k,
{
    if k <= 0 {
        None
    } else {
        match first_with_name(classes, k - 1, name) {
            Some(j) => Some(j),
            None => if classes[k - 1].network_name == name {
                Some((k - 1) as nat)
            } else {
                None
            },
        }
    }
}

/// Message of a negative class ID.
pub open spec fn negative_id_message(id: i32) -> Seq<char> {
    "negative network class ID "@ + signed_digits(id as int)
}

/// Message of a class ID given twice.
pub open spec fn duplicate_id_message(id: nat, first: nat, second: nat) -> Seq<char> {
    "duplicate network class ID "@ + digits(id) + " at indices "@ + digits(first) + " and "@ + digits(
        second,
    )
}

/// Message of a network name given twice.
pub open spec fn duplicate_name_message(name: Seq<char>, first: i32, second: i32) -> Seq<char> {
    "duplicate network class name '"@ + name + "' for IDs "@ + signed_digits(first as int) + " and "@
        + signed_digits(second as int)
}

/// Why class `k` cannot be accepted after the classes before it.
pub open spec fn class_error_at(classes: Seq<ClassModel>, k: int, lim: LimitsModel) -> Option<Failure> {
    let c = classes[k];
    if c.class_id < 0 {
        Some(Failure::Parse(negative_id_message(c.class_id)))
    } else if c.class_id as usize > lim.max_class_id {
        Some(
            Failure::Exact(
                Error::LimitExceeded {
                    resource: "network class ID",
                    limit: lim.max_class_id,
                    actual: c.class_id as usize,
                },
            ),
        )
    } else {
        match first_with_id(classes, k, c.class_id) {
            Some(p) => Some(Failure::Parse(duplicate_id_message(c.class_id as nat, p, k as nat))),
            None => match first_with_name(classes, k, c.network_name) {
                Some(p) => Some(
                    Failure::Parse(
                        duplicate_name_message(c.network_name, classes[p as int].class_id, c.class_id),
                    ),
                ),
                None => None,
            },
        }
    }
}

/// The first error among the first `n` classes.
pub open spec fn first_class_error(classes: Seq<ClassModel>, n: int, lim: LimitsModel) -> Option<Failure>
    decreases n,
{
    if n <= 0 {
        None
    } else {
        match first_class_error(classes, n - 1, lim) {
            Some(f) => Some(f),
            None => class_error_at(classes, n - 1, lim),
        }
    }
}

/// Number of bits in the binary form of `n`; zero for zero.
pub open spec fn bit_length(n: nat) -> nat
    decreases n,
{
    if n == 0 {
        0
    } else {
        1 + bit_length(n / 2)
    }
}

/// A positive number's bit length is the width that just holds it:
/// `2^(len - 1) <= n < 2^len`.
pub proof fn lemma_bit_length_bounds(n: nat)
    requires
        n > 0,
    ensures
        bit_length(n) >= 1,
        vstd::arithmetic::power2::pow2((bit_length(n) - 1) as nat) <= n,
        n < vstd::arithmetic::power2::pow2(bit_length(n)),
    decreases n,
{
    let h = n / 2;
    assert(bit_length(n) == 1 + bit_length(h));
    vstd::arithmetic::power2::lemma_pow2_unfold(bit_length(n));
    assert(vstd::arithmetic::power2::pow2(bit_length(n)) == 2 * vstd::arithmetic::power2::pow2(bit_length(h)));
    if h > 0 {
        lemma_bit_length_bounds(h);
        let b = bit_length(h);
        vstd::arithmetic::power2::lemma_pow2_unfold(b);
        let ph = vstd::arithmetic::power2::pow2(b);
        let pl = vstd::arithmetic::power2::pow2((b - 1) as nat);
        assert(ph == 2 * pl);
        assert(pl <= h && h < ph);
        assert(ph <= n && n < 2 * ph);
    } else {
        vstd::arithmetic::power2::lemma2_to64();
        assert(bit_length(h) == 0);
    }
}

/// Class IDs are read in the fewest bits, at least one, that hold the
/// largest ID.
pub proof fn lemma_class_id_width(classes: Seq<ClassModel>)
    ensures
        class_id_bits(classes) >= 1,
        max_class_id(classes) < vstd::arithmetic::power2::pow2(class_id_bits(classes)),
        class_id_bits(classes) > 1 ==> vstd::arithmetic::power2::pow2((class_id_bits(classes) - 1) as nat)
            <= max_class_id(classes),
{
    vstd::arithmetic::power2::lemma2_to64();
    if max_class_id(classes) > 0 {
        lemma_bit_length_bounds(max_class_id(classes));
    }
}

/// The largest class ID, or zero for no classes.
pub open spec fn max_class_id(classes: Seq<ClassModel>) -> nat
    decreases classes.len(),
{
    if classes.len() == 0 {
        0
    } else {
        let rest = max_class_id(classes.drop_last());
        let id = classes.last().class_id as nat;
        if id > rest {
            id
        } else {
            rest
        }
    }
}

/// Bits needed to decode a class ID: those of the largest ID, at least one.
pub open spec fn class_id_bits(classes: Seq<ClassModel>) -> nat {
    let m = max_class_id(classes);
    if m == 0 {
        1
    } else {
        bit_length(m)
    }
}

/// The name index `m` holds exactly the names of the first `n` classes,
/// each with its class's ID.
pub open spec fn names_indexed(classes: Seq<ClassModel>, n: int, m: Map<Seq<char>, i32>) -> bool {
    &&& forall|i: int|
        0 <= i < n ==> m.contains_key(#[trigger] classes[i].network_name) && m[classes[i].network_name]
            == classes[i].class_id
    &&& forall|name: Seq<char>|
        #[trigger] m.contains_key(name) ==> exists|i: int| 0 <= i < n && #[trigger] classes[i].network_name == name
}

/// The ID index `m` holds exactly the IDs of the first `n` classes, each
/// with its class's position.
pub open spec fn ids_indexed(classes: Seq<ClassModel>, n: int, m: Map<usize, usize>) -> bool {
    &&& forall|i: int|
        0 <= i < n ==> m.contains_key(#[trigger] classes[i].class_id as usize) && m[classes[i].class_id as usize]
            == i as usize
    &&& forall|id: usize|
        #[trigger] m.contains_key(id) ==> exists|i: int| 0 <= i < n && #[trigger] classes[i].class_id as usize == id
}

/// Maps Source 2 class IDs to their network serializer names.
#[derive(Debug)]
pub struct ClassInfo {
    classes: Vec<ClassEntry>,
    bits: usize,
    lookup: Vec<Option<usize>>,
    name_lookup: NameIndex,
}

impl ClassInfo {
    /// IDs are non-negative and distinct, names are distinct, `lookup`
    /// sends each ID to the position of its class, and the name index holds
    /// exactly the names of the classes, each with its class's ID.
    #[verifier::type_invariant]
    spec fn wf(self) -> bool {
        let classes = classes_view(self.classes@);
        &&& forall|i: int| 0 <= i < classes.len() ==> #[trigger] classes[i].class_id >= 0
        &&& forall|i: int, j: int|
            0 <= i < j < classes.len() ==> #[trigger] classes[i].class_id != #[trigger] classes[j].class_id
        &&& forall|i: int, j: int|
            0 <= i < j < classes.len() ==> #[trigger] classes[i].network_name
                != #[trigger] classes[j].network_name
        &&& forall|i: int|
            0 <= i < classes.len() ==> ((#[trigger] classes[i]).class_id as int) < self.lookup@.len()
                && self.lookup@[classes[i].class_id as int] == Some(i as usize)
        &&& forall|k: int|
            0 <= k < self.lookup@.len() ==> (#[trigger] self.lookup@[k] matches Some(i) ==> i
                < classes.len() && classes[i as int].class_id == k)
        &&& names_indexed(classes, classes.len() as int, name_index(self.name_lookup))
    }

    /// The classes, in the order they were given.
    pub closed spec fn spec_classes(&self) -> Seq<ClassModel> {
        classes_view(self.classes@)
    }

    /// Bits needed to decode a class ID.
    pub closed spec fn spec_bits(&self) -> usize {
        self.bits
    }

    /// Create an empty class map.
    pub fn empty() -> (r: Self)
        ensures
            r.spec_classes() == Seq::<ClassModel>::empty(),
            r.spec_bits() == 1,
    {
        let r = ClassInfo { classes: Vec::new(), bits: 1, lookup: Vec::new(), name_lookup: new_name_index() };
        assert(classes_view(r.classes@) =~= Seq::<ClassModel>::empty());
        r
    }

    /// Validate and build class information with default limits.
    pub fn try_from_entries(classes: Vec<ClassEntry>) -> (r: Result<Self, Error>)
        ensures
            class_info_result(classes_view(classes@), crate::limits::default_limits(), r),
    {
        let limits = DecodeLimits::default();
        Self::try_from_entries_with_limits(classes, &limits)
    }

    /// Validate and build class information: at most `limits` classes, IDs
    /// non-negative, within the ID limit and distinct, names distinct.
    pub fn try_from_entries_with_limits(classes: Vec<ClassEntry>, limits: &DecodeLimits) -> (r: Result<Self, Error>)
        ensures
            class_info_result(classes_view(classes@), limits@, r),
    {
        let ghost all = classes_view(classes@);
        let max_classes = limits.max_classes();
        if classes.len() > max_classes {
            return Err(Error::LimitExceeded { resource: "network classes", limit: max_classes, actual: classes.len() });
        }
        let max_id_limit = limits.max_class_id();
        let mut max_id: usize = 0;
        let mut name_lookup = new_name_index();
        let mut seen_ids = new_id_index();
        let mut index: usize = 0;
        while index < classes.len()
            invariant
                all == classes_view(classes@),
                ids_indexed(all, index as int, id_index(seen_ids)),
                names_indexed(all, index as int, name_index(name_lookup)),
                index <= all.len(),
                all.len() <= limits@.max_classes,
                max_id <= 0x7fff_ffff,
                max_id_limit == limits@.max_class_id,
                first_class_error(all, index as int, limits@) is None,
                max_id == max_class_id(all.take(index as int)),
                max_id <= max_id_limit,
                forall|i: int| 0 <= i < index ==> #[trigger] all[i].class_id >= 0 && all[i].class_id as usize <= max_id_limit,
                forall|i: int, j: int| 0 <= i < j < index ==> #[trigger] all[i].class_id != #[trigger] all[j].class_id,
                forall|i: int, j: int| 0 <= i < j < index ==> #[trigger] all[i].network_name != #[trigger] all[j].network_name,
            decreases all.len() - index,
        {
            proof {
                assert(all.take(index + 1).drop_last() =~= all.take(index as int));
            }
            let class = &classes[index];
            assert(all[index as int] == class@);
            if class.class_id < 0 {
                let mut context = String::from_str("negative network class ID ");
                push_signed(&mut context, class.class_id as i64);
                proof {
                    lemma_first_error_persists(all, index as int + 1, limits@);
                }
                return Err(Error::Parse { context });
            }
            let class_id = class.class_id as usize;
            if class_id > max_id_limit {
                proof {
                    lemma_first_error_persists(all, index as int + 1, limits@);
                }
                return Err(Error::LimitExceeded { resource: "network class ID", limit: max_id_limit, actual: class_id });
            }
            match insert_id(&mut seen_ids, class_id, index) {
                Some(previous) => {
                    proof {
                        let i = choose|i: int| 0 <= i < index && #[trigger] all[i].class_id as usize == class_id;
                        assert(all[i].class_id == class.class_id);
                        assert(previous == i);
                        lemma_first_with_id_none(all, i, class.class_id);
                        lemma_first_with_id_found(all, i, index as int, class.class_id);
                    }
                    let mut context = String::from_str("duplicate network class ID ");
                    push_decimal(&mut context, class_id as u64);
                    context.append(" at indices ");
                    push_decimal(&mut context, previous as u64);
                    context.append(" and ");
                    push_decimal(&mut context, index as u64);
                    proof {
                        lemma_first_error_persists(all, index as int + 1, limits@);
                    }
                    return Err(Error::Parse { context });
                },
                None => {},
            }
            proof {
                assert forall|j: int| 0 <= j < index implies #[trigger] all[j].class_id != class.class_id by {
                    if all[j].class_id == class.class_id {
                        assert(id_index(seen_ids).contains_key(all[j].class_id as usize));
                    }
                }
                lemma_first_with_id_none(all, index as int, class.class_id);
            }
            let ghost names_before = name_index(name_lookup);
            match insert_name(&mut name_lookup, class.network_name.clone(), class.class_id) {
                Some(previous) => {
                    proof {
                        let name = all[index as int].network_name;
                        let i = choose|i: int| 0 <= i < index && #[trigger] all[i].network_name == name;
                        assert(previous == all[i].class_id);
                        lemma_first_with_name_none(all, i, name);
                        lemma_first_with_name_found(all, i, index as int, name);
                    }
                    let mut context = String::from_str("duplicate network class name '");
                    context.append(class.network_name.as_str());
                    context.append("' for IDs ");
                    push_signed(&mut context, previous as i64);
                    context.append(" and ");
                    push_signed(&mut context, class.class_id as i64);
                    proof {
                        lemma_first_error_persists(all, index as int + 1, limits@);
                    }
                    return Err(Error::Parse { context });
                },
                None => {},
            }
            proof {
                let name = all[index as int].network_name;
                assert forall|j: int| 0 <= j < index implies #[trigger] all[j].network_name != name by {
                    if all[j].network_name == name {
                        assert(names_before.contains_key(all[j].network_name));
                    }
                }
                lemma_first_with_id_none(all, index as int, class.class_id);
                lemma_first_with_name_none(all, index as int, name);
                assert(ids_indexed(all, index + 1, id_index(seen_ids))) by {
                    assert forall|id: usize| #[trigger] id_index(seen_ids).contains_key(id) implies exists|i: int|
                        0 <= i < index + 1 && #[trigger] all[i].class_id as usize == id by {
                        if id != class_id {
                            let i = choose|i: int| 0 <= i < index && #[trigger] all[i].class_id as usize == id;
                        } else {
                            assert(all[index as int].class_id as usize == id);
                        }
                    }
                }
                assert(names_indexed(all, index + 1, name_index(name_lookup))) by {
                    assert forall|nm: Seq<char>| #[trigger] name_index(name_lookup).contains_key(nm) implies exists|i: int|
                        0 <= i < index + 1 && #[trigger] all[i].network_name == nm by {
                        if nm != name {
                            let i = choose|i: int| 0 <= i < index && #[trigger] all[i].network_name == nm;
                        } else {
                            assert(all[index as int].network_name == nm);
                        }
                    }
                }
            }
            if class_id > max_id {
                max_id = class_id;
            }
            index = index + 1;
        }
        proof {
            assert(all.take(index as int) =~= all);
        }
        let bits = if max_id == 0 {
            1
        } else {
            bits_of(max_id)
        };
        let mut lookup: Vec<Option<usize>> = Vec::new();
        if classes.len() > 0 {
            let mut k: usize = 0;
            while k <= max_id
                invariant
                    k <= max_id + 1,
                    max_id < usize::MAX,
                    lookup@.len() == k,
                    forall|j: int| 0 <= j < k ==> #[trigger] lookup@[j] == None::<usize>,
                decreases max_id + 1 - k,
            {
                lookup.push(None);
                k = k + 1;
            }
        }
        proof {
            assert forall|i: int| 0 <= i < all.len() implies (#[trigger] all[i]).class_id as nat <= max_id by {
                lemma_max_class_id(all, i);
            }
        }
        let mut index: usize = 0;
        while index < classes.len()
            invariant
                all == classes_view(classes@),
                names_indexed(all, all.len() as int, name_index(name_lookup)),
                index <= all.len(),
                max_id == max_class_id(all),
                forall|i: int| 0 <= i < all.len() ==> (#[trigger] all[i]).class_id as nat <= max_id,
                all.len() > 0 ==> lookup@.len() == max_id + 1,
                all.len() == 0 ==> lookup@.len() == 0,
                forall|i: int| 0 <= i < all.len() ==> #[trigger] all[i].class_id >= 0,
                forall|i: int, j: int| 0 <= i < j < all.len() ==> #[trigger] all[i].class_id != #[trigger] all[j].class_id,
                forall|i: int| 0 <= i < index ==> #[trigger] lookup@[all[i].class_id as int] == Some(i as usize),
                forall|k: int|
                    0 <= k < lookup@.len() ==> (#[trigger] lookup@[k] matches Some(i) ==> i < index
                        && all[i as int].class_id == k),
            decreases all.len() - index,
        {
            proof {
                lemma_max_class_id(all, index as int);
            }
            let id = classes[index].class_id as usize;
            assert(all[index as int].class_id == classes@[index as int].class_id);
            let ghost before = lookup@;
            lookup.set(id, Some(index));
            proof {
                assert forall|i: int| 0 <= i < index implies #[trigger] lookup@[all[i].class_id as int] == Some(i as usize) by {
                    assert(all[i].class_id != all[index as int].class_id);
                    assert(lookup@[all[i].class_id as int] == before[all[i].class_id as int]);
                }
            }
            index = index + 1;
        }
        Ok(ClassInfo { classes, bits, lookup, name_lookup })
    }

    /// All class entries in adapter-provided order. IDs are non-negative
    /// and no ID or name occurs twice, so a lookup by either finds at most
    /// one class.
    pub fn classes(&self) -> (r: &[ClassEntry])
        ensures
            classes_view(r@) == self.spec_classes(),
            forall|i: int| 0 <= i < r@.len() ==> #[trigger] r@[i]@.class_id >= 0,
            forall|i: int, j: int|
                0 <= i < r@.len() && 0 <= j < r@.len() && i != j ==> #[trigger] r@[i]@.class_id
                    != #[trigger] r@[j]@.class_id && r@[i]@.network_name != r@[j]@.network_name,
    {
        proof {
            use_type_invariant(self);
            let c = self.spec_classes();
            assert forall|i: int, j: int|
                0 <= i < self.classes@.len() && 0 <= j < self.classes@.len() && i != j implies #[trigger] self.classes@[i]@.class_id
                != #[trigger] self.classes@[j]@.class_id && self.classes@[i]@.network_name
                != self.classes@[j]@.network_name by {
                assert(c[i] == self.classes@[i]@);
                assert(c[j] == self.classes@[j]@);
                if i < j {
                    assert(c[i].class_id != c[j].class_id);
                    assert(c[i].network_name != c[j].network_name);
                } else {
                    assert(c[j].class_id != c[i].class_id);
                    assert(c[j].network_name != c[i].network_name);
                }
            }
            assert forall|i: int| 0 <= i < self.classes@.len() implies #[trigger] self.classes@[i]@.class_id >= 0 by {
                assert(c[i] == self.classes@[i]@);
            }
        }
        self.classes.as_slice()
    }

    /// Number of bits needed to decode a numeric class ID.
    pub fn bits(&self) -> (r: usize)
        ensures
            r == self.spec_bits(),
    {
        self.bits
    }

    /// Number of registered classes.
    pub fn len(&self) -> (r: usize)
        ensures
            r == self.spec_classes().len(),
    {
        self.classes.len()
    }

    /// Whether no classes are registered.
    pub fn is_empty(&self) -> (r: bool)
        ensures
            r == (self.spec_classes().len() == 0),
    {
        self.classes.len() == 0
    }

    /// Look up a class entry by numeric ID.
    pub fn by_id(&self, class_id: i32) -> (r: Option<&ClassEntry>)
        ensures
            match r {
                Some(e) => exists|i: int|
                    0 <= i < self.spec_classes().len() && #[trigger] self.spec_classes()[i] == e@
                        && e@.class_id == class_id,
                None => forall|i: int|
                    0 <= i < self.spec_classes().len() ==> #[trigger] self.spec_classes()[i].class_id
                        != class_id,
            },
    {
        proof {
            use_type_invariant(self);
        }
        if class_id < 0 {
            return None;
        }
        let id = class_id as usize;
        if id >= self.lookup.len() {
            proof {
                assert forall|i: int| 0 <= i < self.spec_classes().len() implies #[trigger] self.spec_classes()[i].class_id != class_id by {
                    assert(self.spec_classes()[i].class_id < self.lookup@.len());
                }
            }
            return None;
        }
        match self.lookup[id] {
            Some(i) => {
                assert(self.spec_classes()[i as int] == self.classes@[i as int]@);
                Some(&self.classes[i])
            },
            None => {
                proof {
                    assert forall|i: int| 0 <= i < self.spec_classes().len() implies #[trigger] self.spec_classes()[i].class_id != class_id by {
                        assert(self.lookup@[self.spec_classes()[i].class_id as int] == Some(i as usize));
                    }
                }
                None
            },
        }
    }

    /// Get the network name for a numeric class ID.
    pub fn name_by_id(&self, class_id: i32) -> (r: Option<&str>)
        ensures
            match r {
                Some(n) => exists|i: int|
                    0 <= i < self.spec_classes().len() && #[trigger] self.spec_classes()[i].class_id
                        == class_id && self.spec_classes()[i].network_name == n@,
                None => forall|i: int|
                    0 <= i < self.spec_classes().len() ==> #[trigger] self.spec_classes()[i].class_id
                        != class_id,
            },
    {
        match self.by_id(class_id) {
            Some(class) => Some(class.network_name.as_str()),
            None => None,
        }
    }

    /// Find a numeric class ID by network name, through the name index.
    pub fn id_of(&self, network_name: &str) -> (r: Option<i32>)
        ensures
            match r {
                Some(id) => exists|i: int|
                    0 <= i < self.spec_classes().len() && #[trigger] self.spec_classes()[i].network_name
                        == network_name@ && self.spec_classes()[i].class_id == id,
                None => forall|i: int|
                    0 <= i < self.spec_classes().len() ==> #[trigger] self.spec_classes()[i].network_name
                        != network_name@,
            },
    {
        proof {
            use_type_invariant(self);
        }
        let r = id_by_name(&self.name_lookup, network_name);
        proof {
            let classes = self.spec_classes();
            let m = name_index(self.name_lookup);
            if m.contains_key(network_name@) {
                let i = choose|i: int| 0 <= i < classes.len() && #[trigger] classes[i].network_name == network_name@;
                assert(m[classes[i].network_name] == classes[i].class_id);
            } else {
                assert forall|i: int| 0 <= i < classes.len() implies #[trigger] classes[i].network_name
                    != network_name@ by {
                    if classes[i].network_name == network_name@ {
                        assert(m.contains_key(classes[i].network_name));
                    }
                }
            }
        }
        r
    }
}

impl Default for ClassInfo {
    fn default() -> (r: Self)
        ensures
            r.spec_classes() == Seq::<ClassModel>::empty(),
            r.spec_bits() == 1,
    {
        Self::empty()
    }
}

/// `r` is what validating `classes` under `lim` gives: the first error in
/// class order, or a map holding exactly these classes.
pub open spec fn class_info_result(classes: Seq<ClassModel>, lim: LimitsModel, r: Result<ClassInfo, Error>) -> bool {
    if classes.len() > lim.max_classes {
        r == Err::<ClassInfo, Error>(
            Error::LimitExceeded {
                resource: "network classes",
                limit: lim.max_classes,
                actual: classes.len() as usize,
            },
        )
    } else {
        match first_class_error(classes, classes.len() as int, lim) {
            Some(f) => r matches Err(e) && failure_is(e, f),
            None => r matches Ok(info) && info.spec_classes() == classes && info.spec_bits()
                == class_id_bits(classes),
        }
    }
}

/// Once a class fails, the first error of every longer prefix is that one.
proof fn lemma_first_error_persists(classes: Seq<ClassModel>, n: int, lim: LimitsModel)
    requires
        0 < n <= classes.len(),
        first_class_error(classes, n - 1, lim) is None,
        class_error_at(classes, n - 1, lim) is Some,
    ensures
        first_class_error(classes, classes.len() as int, lim) == class_error_at(classes, n - 1, lim),
    decreases classes.len() - n,
{
    if n < classes.len() {
        lemma_first_error_persists_step(classes, n, classes.len() as int, lim);
    }
}

proof fn lemma_first_error_persists_step(classes: Seq<ClassModel>, n: int, m: int, lim: LimitsModel)
    requires
        0 < n <= m,
        first_class_error(classes, n, lim) is Some,
    ensures
        first_class_error(classes, m, lim) == first_class_error(classes, n, lim),
    decreases m - n,
{
    if m > n {
        lemma_first_error_persists_step(classes, n, m - 1, lim);
    }
}

/// No earlier class has the ID: then `first_with_id` finds none.
proof fn lemma_first_with_id_none(classes: Seq<ClassModel>, k: int, id: i32)
    requires
        0 <= k <= classes.len(),
        forall|j: int| 0 <= j < k ==> #[trigger] classes[j].class_id != id,
    ensures
        first_with_id(classes, k, id) is None,
    decreases k,
{
    if k > 0 {
        lemma_first_with_id_none(classes, k - 1, id);
    }
}

/// No earlier class has the name: then `first_with_name` finds none.
proof fn lemma_first_with_name_none(classes: Seq<ClassModel>, k: int, name: Seq<char>)
    requires
        0 <= k <= classes.len(),
        forall|j: int| 0 <= j < k ==> #[trigger] classes[j].network_name != name,
    ensures
        first_with_name(classes, k, name) is None,
    decreases k,
{
    if k > 0 {
        lemma_first_with_name_none(classes, k - 1, name);
    }
}

/// Every ID is at most the largest.
proof fn lemma_max_class_id(classes: Seq<ClassModel>, i: int)
    requires
        0 <= i < classes.len(),
        forall|j: int| 0 <= j < classes.len() ==> #[trigger] classes[j].class_id >= 0,
    ensures
        classes[i].class_id as nat <= max_class_id(classes),
    decreases classes.len(),
{
    if i < classes.len() - 1 {
        assert(classes.drop_last()[i] == classes[i]);
        lemma_max_class_id(classes.drop_last(), i);
    }
}

/// The first class with the ID stays the first in every longer prefix.
proof fn lemma_first_with_id_found(classes: Seq<ClassModel>, j: int, k: int, id: i32)
    requires
        0 <= j < k <= classes.len(),
        first_with_id(classes, j, id) is None,
        classes[j].class_id == id,
    ensures
        first_with_id(classes, k, id) == Some(j as nat),
    decreases k - j,
{
    if k > j + 1 {
        lemma_first_with_id_found(classes, j, k - 1, id);
    }
}

/// The first class with the name stays the first in every longer prefix.
proof fn lemma_first_with_name_found(classes: Seq<ClassModel>, j: int, k: int, name: Seq<char>)
    requires
        0 <= j < k <= classes.len(),
        first_with_name(classes, j, name) is None,
        classes[j].network_name == name,
    ensures
        first_with_name(classes, k, name) == Some(j as nat),
    decreases k - j,
{
    if k > j + 1 {
        lemma_first_with_name_found(classes, j, k - 1, name);
    }
}

/// The bit length of a number is at most the number.
proof fn lemma_bit_length_le(n: nat)
    ensures
        bit_length(n) <= n,
    decreases n,
{
    if n > 0 {
        lemma_bit_length_le(n / 2);
    }
}

/// Number of bits in the binary form of `n`.
fn bits_of(n: usize) -> (r: usize)
    ensures
        r == bit_length(n as nat),
{
    let mut v = n;
    let mut count: usize = 0;
    proof {
        lemma_bit_length_le(n as nat);
    }
    while v > 0
        invariant
            bit_length(n as nat) == count + bit_length(v as nat),
            bit_length(n as nat) <= n,
        decreases v,
    {
        v = v / 2;
        count = count + 1;
    }
    count
}

} // verus!
