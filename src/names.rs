//! Name recovery: the dictionary from 64-bit name hashes back to known names,
//! the hexadecimal fallback for unknown hashes, and display names.

use vstd::prelude::*;
use vstd::string::StringSliceAdditionalSpecFns;

verus! {

/// MurmurHash64A of `key` with seed 0.
pub uninterp spec fn murmur64a(key: Seq<u8>) -> u64;

/// Relies on murmurhash64::murmur_hash64a, called with seed 0; it depends on the key bytes alone.
#[verifier::external_body]
fn murmur_seed0(key: &[u8]) -> (r: u64)
    ensures
        r == murmur64a(key@),
{
    murmurhash64::murmur_hash64a(key, 0)
}

/// The hash under which a name is stored: MurmurHash64A of its UTF-8 bytes.
pub fn hash_name(n: &str) -> (r: u64)
    ensures
        r == murmur64a(n.spec_bytes()),
{
    murmur_seed0(n.as_bytes())
}

/// Whether files of the extension with this hash are written out; every one is.
pub fn should_dump(_ext_hash: u64) -> (r: bool)
    ensures
        r,
{
    true
}

/// The name stored last under `h` among `entries`, if any.
pub open spec fn last_match(entries: Seq<(u64, Seq<u8>)>, h: u64) -> Option<Seq<u8>>
    decreases entries.len(),
{
    if entries.len() == 0 {
        None
    } else if entries.last().0 == h {
        Some(entries.last().1)
    } else {
        last_match(entries.drop_last(), h)
    }
}

/// The entries of a dictionary built from `names`, in order.
pub open spec fn entries_of(names: Seq<Seq<u8>>) -> Seq<(u64, Seq<u8>)> {
    names.map_values(|n: Seq<u8>| (murmur64a(n), n))
}

/// Every name found under a hash in `entries_of(names)` hashes to it.
pub proof fn lemma_lookup_hashes_back(names: Seq<Seq<u8>>, h: u64)
    ensures
        last_match(entries_of(names), h) matches Some(n) ==> murmur64a(n) == h && names.contains(n),
    decreases names.len(),
{
    if names.len() > 0 {
        let e = entries_of(names);
        assert(entries_of(names.drop_last()) =~= e.drop_last());
        lemma_lookup_hashes_back(names.drop_last(), h);
        if e.last().0 != h {
            if let Some(n) = last_match(e, h) {
                let i = choose|i: int| 0 <= i < names.drop_last().len() && names.drop_last()[i] == n;
                assert(names[i] == n);
            }
        } else {
            assert(names[names.len() - 1] == names.last());
        }
    }
}

/// A hash that no name produces finds nothing.
pub proof fn lemma_lookup_miss(names: Seq<Seq<u8>>, h: u64)
    requires
        forall|i: int| 0 <= i < names.len() ==> murmur64a(#[trigger] names[i]) != h,
    ensures
        last_match(entries_of(names), h) is None,
    decreases names.len(),
{
    if names.len() > 0 {
        assert(entries_of(names.drop_last()) =~= entries_of(names).drop_last());
        lemma_lookup_miss(names.drop_last(), h);
    }
}

/// The hash of a name finds that name, unless a later name has the same hash.
pub proof fn lemma_lookup_hit(names: Seq<Seq<u8>>, i: int)
    requires
        0 <= i < names.len(),
        forall|j: int| i < j < names.len() ==> murmur64a(#[trigger] names[j]) != murmur64a(names[i]),
    ensures
        last_match(entries_of(names), murmur64a(names[i])) == Some(names[i]),
    decreases names.len(),
{
    if i < names.len() - 1 {
        assert(entries_of(names.drop_last()) =~= entries_of(names).drop_last());
        lemma_lookup_hit(names.drop_last(), i);
    }
}

/// A read-only table from name hashes to the names they came from.
pub struct HashDictionary {
    entries: Vec<(u64, Vec<u8>)>,
}

impl HashDictionary {
    /// The entries in insertion order; a later entry wins over an earlier one with the same hash.
    pub closed spec fn view(&self) -> Seq<(u64, Seq<u8>)> {
        self.entries@.map_values(|e: (u64, Vec<u8>)| (e.0, e.1@))
    }

    /// A dictionary of `names`, each stored under its hash.
    pub fn from_names(names: &[&str]) -> (r: Self)
        ensures
            r@ == entries_of(names@.map_values(|s: &str| s.spec_bytes())),
    {
        let mut entries: Vec<(u64, Vec<u8>)> = Vec::new();
        let mut i: usize = 0;
        while i < names.len()
            invariant
                i <= names@.len(),
                entries@.len() == i,
                forall|j: int|
                    0 <= j < i ==> (#[trigger] entries@[j]).0 == murmur64a(names@[j].spec_bytes())
                        && entries@[j].1@ == names@[j].spec_bytes(),
            decreases names@.len() - i,
        {
            let n: &str = names[i];
            let h = hash_name(n);
            let b = copy_bytes(n.as_bytes());
            entries.push((h, b));
            i = i + 1;
        }
        let r = HashDictionary { entries };
        assert(r@ =~= entries_of(names@.map_values(|s: &str| s.spec_bytes())));
        r
    }

    /// The dictionary of the embedded candidate names.
    pub fn new() -> (r: Self)
        ensures
            r@ == entries_of(embedded_names().map_values(|s: &str| s.spec_bytes())),
    {
        let names = candidate_names();
        Self::from_names(names.as_slice())
    }

    /// The name stored under `hash`, if any.
    pub fn lookup(&self, hash: u64) -> (r: Option<Vec<u8>>)
        ensures
            match r {
                Some(n) => last_match(self@, hash) == Some(n@),
                None => last_match(self@, hash) is None,
            },
    {
        let mut i: usize = self.entries.len();
        assert(self@.take(i as int) =~= self@);
        while i > 0
            invariant
                i <= self.entries@.len(),
                last_match(self@, hash) == last_match(self@.take(i as int), hash),
            decreases i,
        {
            let ghost t = self@.take(i as int);
            assert(t.drop_last() =~= self@.take(i - 1));
            if self.entries[i - 1].0 == hash {
                return Some(copy_bytes(self.entries[i - 1].1.as_slice()));
            }
            i = i - 1;
        }
        None
    }
}

/// A copy of `s`.
fn copy_bytes(s: &[u8]) -> (r: Vec<u8>)
    ensures
        r@ == s@,
{
    let mut r: Vec<u8> = Vec::new();
    let mut i: usize = 0;
    while i < s.len()
        invariant
            i <= s@.len(),
            r@ == s@.take(i as int),
        decreases s@.len() - i,
    {
        r.push(s[i]);
        i = i + 1;
        assert(r@ =~= s@.take(i as int));
    }
    assert(s@.take(s@.len() as int) =~= s@);
    r
}

/// The known names: resource types and the sound banks of one game.
pub open spec fn embedded_names() -> Seq<&'static str> {
    seq![
        "timpani_master",
        "strings",
        "bones",
        "render_config",
        "level",
        "input",
        "network_config",
        "ugg",
        "xml",
        "wav",
        "baked_lighting",
        "config",
        "data",
        "flow",
        "animation",
        "timpani_bank",
        "shader_library_group",
        "font",
        "lua",
        "state_machine",
        "particles",
        "upb",
        "package",
        "surface_properties",
        "mouse_cursor",
        "physics_properties",
        "shader",
        "texture",
        "sound_environment",
        "animation_curves",
        "unit",
        "static_pvs",
        "shader_library",
        "material",
        "vector_field",
        "spu_job",
        "ivf",
        "shading_environment",
        "wwise_stream",
        "wwise_bank",
        "wwise_metadata",
        "wwise_dep",
        "wwise/explore_02",
        "wwise/explore_03",
        "wwise/mantis",
        "wwise/explore_01",
        "wwise/action_02",
        "wwise/tamarin_home_day",
        "wwise/menu",
        "wwise/Init",
        "wwise/intro",
        "wwise/gui",
        "wwise/factory",
        "wwise/caves_01",
        "wwise/objects",
        "wwise/physics",
        "wwise/characters",
        "wwise/weapons",
        "wwise/environments",
        "wwise/tamarin_rescue",
        "wwise/toxic_woods",
        "wwise/tamarin_home",
        "wwise/action_03",
        "wwise/action_01",
        "wwise/caves_02",
        "wwise/action_03_ambient",
    ]
}

/// The known names, in the order they are stored.
pub fn candidate_names() -> (r: Vec<&'static str>)
    ensures
        r@ == embedded_names(),
{
    let v = vec![
        "timpani_master",
        "strings",
        "bones",
        "render_config",
        "level",
        "input",
        "network_config",
        "ugg",
        "xml",
        "wav",
        "baked_lighting",
        "config",
        "data",
        "flow",
        "animation",
        "timpani_bank",
        "shader_library_group",
        "font",
        "lua",
        "state_machine",
        "particles",
        "upb",
        "package",
        "surface_properties",
        "mouse_cursor",
        "physics_properties",
        "shader",
        "texture",
        "sound_environment",
        "animation_curves",
        "unit",
        "static_pvs",
        "shader_library",
        "material",
        "vector_field",
        "spu_job",
        "ivf",
        "shading_environment",
        "wwise_stream",
        "wwise_bank",
        "wwise_metadata",
        "wwise_dep",
        "wwise/explore_02",
        "wwise/explore_03",
        "wwise/mantis",
        "wwise/explore_01",
        "wwise/action_02",
        "wwise/tamarin_home_day",
        "wwise/menu",
        "wwise/Init",
        "wwise/intro",
        "wwise/gui",
        "wwise/factory",
        "wwise/caves_01",
        "wwise/objects",
        "wwise/physics",
        "wwise/characters",
        "wwise/weapons",
        "wwise/environments",
        "wwise/tamarin_rescue",
        "wwise/toxic_woods",
        "wwise/tamarin_home",
        "wwise/action_03",
        "wwise/action_01",
        "wwise/caves_02",
        "wwise/action_03_ambient",
    ];
    assert(v@ =~= embedded_names());
    v
}

/// The ASCII character of the uppercase hexadecimal digit `d`.
pub open spec fn hex_digit(d: nat) -> u8 {
    if d < 10 {
        (48 + d) as u8
    } else {
        (55 + d) as u8
    }
}

/// The lowest `w` hexadecimal digits of `v`, most significant first.
pub open spec fn hex_fixed(v: nat, w: nat) -> Seq<u8>
    decreases w,
{
    if w == 0 {
        Seq::empty()
    } else {
        hex_fixed(v / 16, (w - 1) as nat).push(hex_digit(v % 16))
    }
}

/// `16` to the power `w`.
pub open spec fn pow16(w: nat) -> nat
    decreases w,
{
    if w == 0 {
        1
    } else {
        16 * pow16((w - 1) as nat)
    }
}

/// Whether `w` is the least width of at least 8 hexadecimal digits that holds `v`.
pub open spec fn is_hex_width(v: u64, w: nat) -> bool {
    8 <= w && v < pow16(w) && (w == 8 || v >= pow16((w - 1) as nat))
}

/// The number of digits `v` takes in hexadecimal, and at least 8.
pub open spec fn hex_width(v: u64) -> nat {
    choose|w: nat| is_hex_width(v, w)
}

proof fn lemma_pow16_mono(a: nat, b: nat)
    requires
        a <= b,
    ensures
        pow16(a) <= pow16(b),
    decreases b - a,
{
    if a < b {
        lemma_pow16_mono(a, (b - 1) as nat);
    }
}

/// At most one width fits a value.
proof fn lemma_hex_width_unique(v: u64, w1: nat, w2: nat)
    requires
        is_hex_width(v, w1),
        is_hex_width(v, w2),
    ensures
        w1 == w2,
{
    if w1 < w2 {
        lemma_pow16_mono(w1, (w2 - 1) as nat);
    } else if w2 < w1 {
        lemma_pow16_mono(w2, (w1 - 1) as nat);
    }
}

/// `v` in uppercase hexadecimal, padded with zeros to at least 8 digits.
pub open spec fn hex_upper(v: u64) -> Seq<u8> {
    hex_fixed(v as nat, hex_width(v))
}

fn hex_width_of(v: u64) -> (r: usize)
    ensures
        r == hex_width(v),
{
    proof {
        reveal_with_fuel(pow16, 17);
        assert(pow16(8) == 0x1_0000_0000);
        assert(pow16(16) == 0x1_0000_0000_0000_0000);
    }
    let r: usize = if v < 0x1_0000_0000 {
        8
    } else if v < 0x10_0000_0000 {
        9
    } else if v < 0x100_0000_0000 {
        10
    } else if v < 0x1000_0000_0000 {
        11
    } else if v < 0x1_0000_0000_0000 {
        12
    } else if v < 0x10_0000_0000_0000 {
        13
    } else if v < 0x100_0000_0000_0000 {
        14
    } else if v < 0x1000_0000_0000_0000 {
        15
    } else {
        16
    };
    proof {
        assert(is_hex_width(v, r as nat));
        lemma_hex_width_unique(v, r as nat, hex_width(v));
    }
    r
}

/// The lowest `w` hexadecimal digits of `v`.
fn hex_fixed_of(v: u64, w: usize) -> (r: Vec<u8>)
    ensures
        r@ == hex_fixed(v as nat, w as nat),
    decreases w,
{
    if w == 0 {
        Vec::new()
    } else {
        let mut r = hex_fixed_of(v / 16, w - 1);
        let d = v % 16;
        let c: u8 = if d < 10 {
            48 + d as u8
        } else {
            55 + d as u8
        };
        r.push(c);
        r
    }
}

/// `v` in uppercase hexadecimal with at least 8 digits: the name of an unknown hash.
pub fn hex_name(v: u64) -> (r: Vec<u8>)
    ensures
        r@ == hex_upper(v),
{
    hex_fixed_of(v, hex_width_of(v))
}

/// The display form of a hash: the name stored under it, else its hexadecimal form.
pub open spec fn display_part(entries: Seq<(u64, Seq<u8>)>, h: u64) -> Seq<u8> {
    match last_match(entries, h) {
        Some(n) => n,
        None => hex_upper(h),
    }
}

/// The display name of a file: its name, a dot, and its extension.
pub open spec fn display_name(entries: Seq<(u64, Seq<u8>)>, ext_hash: u64, name_hash: u64) -> Seq<u8> {
    display_part(entries, name_hash) + seq![46u8] + display_part(entries, ext_hash)
}

fn display_part_of(dict: &HashDictionary, h: u64) -> (r: Vec<u8>)
    ensures
        r@ == display_part(dict@, h),
{
    match dict.lookup(h) {
        Some(n) => n,
        None => hex_name(h),
    }
}

/// The display name of the file with these hashes, recovered through `dict`.
pub fn file_name(dict: &HashDictionary, ext_hash: u64, name_hash: u64) -> (r: Vec<u8>)
    ensures
        r@ == display_name(dict@, ext_hash, name_hash),
{
    let mut r = display_part_of(dict, name_hash);
    r.push(46u8);
    let ext = display_part_of(dict, ext_hash);
    let mut i: usize = 0;
    let ghost head = r@;
    while i < ext.len()
        invariant
            i <= ext@.len(),
            r@ == head + ext@.take(i as int),
        decreases ext@.len() - i,
    {
        r.push(ext[i]);
        i = i + 1;
        assert(r@ =~= head + ext@.take(i as int));
    }
    assert(ext@.take(ext@.len() as int) =~= ext@);
    r
}

} // verus!
