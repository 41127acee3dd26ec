//! The parts of a sampled profile, and of an export request that carries
//! profiles, that symbolization reads.

use vstd::prelude::*;

verus! {

/// The value of an attribute. Values of kinds that symbolization never reads
/// (booleans, floating-point numbers, arrays, key-value lists, bytes, and
/// values left unset) are all `Unsupported`.
#[derive(Clone, Debug)]
pub enum AnyValue {
    StringValue(String),
    IntValue(i64),
    Unsupported,
}

/// An attribute: a key and an optional value.
#[derive(Clone, Debug)]
pub struct KeyValue {
    pub key: String,
    pub value: Option<AnyValue>,
}

/// A sample: a run of `locations_length` entries of the location table,
/// starting at `locations_start_index`, and indices into the attribute table.
#[derive(Clone, Debug)]
pub struct Sample {
    pub locations_start_index: i32,
    pub locations_length: i32,
    pub attribute_indices: Vec<i32>,
}

/// A sampled program location: an address relative to the mapping at
/// `mapping_index` of the mapping table.
#[derive(Clone, Copy, Debug)]
pub struct Location {
    pub mapping_index: Option<i32>,
    pub address: u64,
}

/// A memory mapping of a file, which names the file by an index into the
/// string table.
#[derive(Clone, Copy, Debug)]
pub struct Mapping {
    pub memory_start: u64,
    pub file_offset: u64,
    pub filename_strindex: i32,
}

/// A profile: its samples and the tables that they refer to.
#[derive(Clone, Debug)]
pub struct Profile {
    pub sample: Vec<Sample>,
    pub mapping_table: Vec<Mapping>,
    pub location_table: Vec<Location>,
    pub attribute_table: Vec<KeyValue>,
    pub string_table: Vec<String>,
}

/// The profiles that one instrumentation scope produced.
#[derive(Clone, Debug)]
pub struct ScopeProfiles {
    pub profiles: Vec<Profile>,
}

/// The profiles that one resource produced, grouped by scope.
#[derive(Clone, Debug)]
pub struct ResourceProfiles {
    pub scope_profiles: Vec<ScopeProfiles>,
}

/// An export request: profiles grouped by resource and scope.
#[derive(Clone, Debug)]
pub struct ExportProfilesServiceRequest {
    pub resource_profiles: Vec<ResourceProfiles>,
}

/// The value that `x as usize` takes: `x` itself when it is not negative,
/// else `x` wrapped around by `usize::MAX + 1`.
pub open spec fn i32_as_usize(x: i32) -> int {
    if x >= 0 {
        x as int
    } else {
        x + usize::MAX + 1
    }
}

/// Converts an index as `x as usize` does.
pub fn i32_to_usize(x: i32) -> (r: usize)
    ensures
        r as int == i32_as_usize(x),
{
    if x >= 0 {
        x as usize
    } else {
        let below: i64 = -(x as i64 + 1);
        usize::MAX - (below as usize)
    }
}

/// The profiles of a list of scopes, in order.
pub open spec fn scope_list_profiles(scopes: Seq<ScopeProfiles>) -> Seq<Profile>
    decreases scopes.len(),
{
    if scopes.len() == 0 {
        Seq::empty()
    } else {
        scope_list_profiles(scopes.drop_last()) + scopes.last().profiles@
    }
}

/// The profiles of a list of resources, in order.
pub open spec fn resource_list_profiles(resources: Seq<ResourceProfiles>) -> Seq<Profile>
    decreases resources.len(),
{
    if resources.len() == 0 {
        Seq::empty()
    } else {
        resource_list_profiles(resources.drop_last()) + scope_list_profiles(
            resources.last().scope_profiles@,
        )
    }
}

/// The profiles of a request, resource by resource and scope by scope.
pub open spec fn request_profiles(req: ExportProfilesServiceRequest) -> Seq<Profile> {
    resource_list_profiles(req.resource_profiles@)
}

/// `i32_as_usize` is the two's-complement reading of `x` as a `usize`: `x`
/// itself when it is not negative, and `usize::MAX + 1 + x` when it is.
pub proof fn i32_as_usize_law(x: i32)
    ensures
        x >= 0 ==> i32_as_usize(x) == x as int,
        x < 0 ==> i32_as_usize(x) == usize::MAX + 1 + x,
        0 <= i32_as_usize(x) <= usize::MAX,
{
}

/// The profiles of no scopes are none, those of one scope are its profiles,
/// and those of two lists of scopes one after the other are the profiles of
/// the first list followed by those of the second.
pub proof fn scope_list_profiles_law(a: Seq<ScopeProfiles>, b: Seq<ScopeProfiles>, s: ScopeProfiles)
    ensures
        scope_list_profiles(Seq::empty()) == Seq::<Profile>::empty(),
        scope_list_profiles(seq![s]) == s.profiles@,
        scope_list_profiles(a + b) == scope_list_profiles(a) + scope_list_profiles(b),
    decreases b.len(),
{
    assert(seq![s].drop_last() =~= Seq::<ScopeProfiles>::empty());
    assert(Seq::<Profile>::empty() + s.profiles@ =~= s.profiles@);
    if b.len() == 0 {
        assert(a + b =~= a);
        assert(scope_list_profiles(a) + Seq::<Profile>::empty() =~= scope_list_profiles(a));
    } else {
        scope_list_profiles_law(a, b.drop_last(), s);
        assert((a + b).drop_last() =~= a + b.drop_last());
        assert((a + b).last() == b.last());
        assert(scope_list_profiles(a + b) =~= scope_list_profiles(a) + scope_list_profiles(b));
    }
}

/// The profiles of no resources are none, those of one resource are the
/// profiles of its scopes, and those of two lists of resources one after the
/// other are the profiles of the first list followed by those of the second.
pub proof fn resource_list_profiles_law(
    a: Seq<ResourceProfiles>,
    b: Seq<ResourceProfiles>,
    r: ResourceProfiles,
)
    ensures
        resource_list_profiles(Seq::empty()) == Seq::<Profile>::empty(),
        resource_list_profiles(seq![r]) == scope_list_profiles(r.scope_profiles@),
        resource_list_profiles(a + b) == resource_list_profiles(a) + resource_list_profiles(b),
    decreases b.len(),
{
    assert(seq![r].drop_last() =~= Seq::<ResourceProfiles>::empty());
    assert(Seq::<Profile>::empty() + scope_list_profiles(r.scope_profiles@) =~= scope_list_profiles(
        r.scope_profiles@,
    ));
    if b.len() == 0 {
        assert(a + b =~= a);
        assert(resource_list_profiles(a) + Seq::<Profile>::empty() =~= resource_list_profiles(a));
    } else {
        resource_list_profiles_law(a, b.drop_last(), r);
        assert((a + b).drop_last() =~= a + b.drop_last());
        assert((a + b).last() == b.last());
        assert(resource_list_profiles(a + b) =~= resource_list_profiles(a) + resource_list_profiles(
            b,
        ));
    }
}

} // verus!
