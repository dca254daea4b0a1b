//! The data model of an `.askey` animation and of the player's settings.

use vstd::prelude::*;
use vstd::hash_map::StringHashMap;
use crate::text::{ascii_lowercase, seq_ascii_lowercase};

verus! {

broadcast use vstd::hash_map::group_hash_map_axioms;

/// One frame of a detailed animation: its markup and its own delay in milliseconds.
#[derive(Debug)]
pub struct FrameObj {
    pub c: String,
    pub d: u64,
}

/// The frames of an animation: either bare markup strings sharing one delay,
/// or markup strings that each carry a delay.
#[derive(Debug)]
pub enum Frames {
    Simple(Vec<String>),
    Detailed(Vec<FrameObj>),
}

/// Descriptive metadata stored beside the frames.
#[derive(Debug)]
pub struct Metadata {
    pub f: usize,
    pub d: u64,
    pub t: String,
}

/// A map from color keys to color values (`#rrggbb`).
///
/// The keys are also kept in insertion order so that the entries can be listed.
pub struct Palette {
    keys: Vec<String>,
    table: StringHashMap<String>,
}

/// A whole `.askey` document: format version, optional name, metadata,
/// color palette, optional default delay and the frames.
pub struct AskeyFile {
    pub v: String,
    pub n: Option<String>,
    pub m: Metadata,
    pub p: Palette,
    pub d: Option<u64>,
    pub fr: Frames,
}

/// Whether no key occurs twice in `keys`.
pub open spec fn distinct_views(keys: Seq<String>) -> bool {
    forall|i: int, j: int| 0 <= i < j < keys.len() ==> keys[i]@ != keys[j]@
}

impl Palette {
    /// The palette as a map from key to value.
    pub closed spec fn map(self) -> Map<Seq<char>, Seq<char>> {
        self.table@.map_values(|v: String| v@)
    }

    #[verifier::type_invariant]
    closed spec fn wf(self) -> bool {
        &&& distinct_views(self.keys@)
        &&& forall|k: Seq<char>|
            self.table@.contains_key(k) <==> exists|i: int| 0 <= i < self.keys@.len() && self.keys@[i]@ == k
    }

    /// An empty palette.
    pub fn new() -> (p: Self)
        ensures
            p.map() == Map::<Seq<char>, Seq<char>>::empty(),
    {
        let p = Palette { keys: Vec::new(), table: StringHashMap::new() };
        assert(p.map() =~= Map::<Seq<char>, Seq<char>>::empty());
        p
    }

    /// Sets the value of `key`, replacing any earlier value.
    pub fn insert(&mut self, key: String, value: String)
        ensures
            final(self).map() == old(self).map().insert(key@, value@),
    {
        proof {
            use_type_invariant(&*self);
        }
        let mut old_p = Palette::new();
        std::mem::swap(self, &mut old_p);
        proof {
            use_type_invariant(&old_p);
        }
        let Palette { mut keys, mut table } = old_p;
        let ghost old_keys = keys@;
        let present = table.contains_key(key.as_str());
        if !present {
            keys.push(key.clone());
        }
        table.insert(key, value);
        proof {
            assert forall|i: int, j: int| 0 <= i < j < keys@.len() implies keys@[i]@ != keys@[j]@ by {
                if j == old_keys.len() {
                    assert(old_keys[i] == keys@[i]);
                }
            }
            assert forall|k: Seq<char>|
                table@.contains_key(k) <==> exists|i: int| 0 <= i < keys@.len() && keys@[i]@ == k by {
                if table@.contains_key(k) && k != key@ {
                    let i = choose|i: int| 0 <= i < old_keys.len() && old_keys[i]@ == k;
                    assert(keys@[i] == old_keys[i]);
                }
                if exists|i: int| 0 <= i < keys@.len() && keys@[i]@ == k {
                    let i = choose|i: int| 0 <= i < keys@.len() && keys@[i]@ == k;
                    if i < old_keys.len() {
                        assert(keys@[i] == old_keys[i]);
                    }
                }
                if k == key@ && present {
                    let i = choose|i: int| 0 <= i < old_keys.len() && old_keys[i]@ == k;
                    assert(keys@[i] == old_keys[i]);
                }
                if k == key@ && !present {
                    assert(keys@[old_keys.len() as int]@ == k);
                }
            }
        }
        *self = Palette { keys, table };
        proof {
            assert(self.map() =~= old(self).map().insert(key@, value@));
        }
    }

    /// The value of `key`, if the palette has one.
    pub fn get(&self, key: &str) -> (r: Option<&String>)
        ensures
            match r {
                Some(v) => self.map().contains_key(key@) && v@ == self.map()[key@],
                None => !self.map().contains_key(key@),
            },
    {
        self.table.get(key)
    }

    /// Number of keys.
    pub fn len(&self) -> (n: usize)
        ensures
            n == self.map().len(),
    {
        assert(self.map().dom() =~= self.table@.dom());
        self.table.len()
    }

    /// All entries of the palette, each key once.
    pub fn entries(&self) -> (e: Vec<(String, String)>)
        ensures
            e@.len() == self.map().len(),
            forall|i: int, j: int| 0 <= i < j < e@.len() ==> e@[i].0@ != e@[j].0@,
            forall|i: int| 0 <= i < e@.len() ==> self.map().contains_key(#[trigger] e@[i].0@)
                && e@[i].1@ == self.map()[e@[i].0@],
            forall|k: Seq<char>| self.map().contains_key(k) ==> exists|i: int| 0 <= i < e@.len() && (#[trigger] e@[i].0@) == k,
    {
        proof {
            use_type_invariant(self);
        }
        let mut e: Vec<(String, String)> = Vec::new();
        let mut i: usize = 0;
        while i < self.keys.len()
            invariant
                0 <= i <= self.keys@.len(),
                e@.len() == i,
                distinct_views(self.keys@),
                forall|k: Seq<char>|
                    self.table@.contains_key(k) <==> exists|j: int| 0 <= j < self.keys@.len() && self.keys@[j]@ == k,
                forall|j: int| 0 <= j < i ==> e@[j].0@ == self.keys@[j]@ && self.table@.contains_key(e@[j].0@)
                    && e@[j].1@ == self.table@[e@[j].0@]@,
            decreases self.keys@.len() - i,
        {
            let k = self.keys[i].clone();
            assert(self.table@.contains_key(self.keys@[i as int]@));
            match self.table.get(k.as_str()) {
                Some(v) => {
                    e.push((k, v.clone()));
                },
                None => {
                    assert(false);
                },
            }
            i += 1;
        }
        proof {
            self.lemma_len();
            assert(self.map().dom() =~= self.table@.dom());
            assert forall|a: int, b: int| 0 <= a < b < e@.len() implies e@[a].0@ != e@[b].0@ by {
                assert(e@[a].0@ == self.keys@[a]@);
                assert(e@[b].0@ == self.keys@[b]@);
            }
            assert forall|a: int| 0 <= a < e@.len() implies self.map().contains_key(#[trigger] e@[a].0@)
                && e@[a].1@ == self.map()[e@[a].0@] by {
                assert(e@[a].0@ == self.keys@[a]@ && self.table@.contains_key(e@[a].0@)
                    && e@[a].1@ == self.table@[e@[a].0@]@);
            }
            assert forall|k: Seq<char>| self.map().contains_key(k) implies exists|j: int| 0 <= j < e@.len() && (#[trigger] e@[j].0@) == k by {
                let j = choose|j: int| 0 <= j < self.keys@.len() && self.keys@[j]@ == k;
                assert(e@[j].0@ == k);
            }
        }
        e
    }

    proof fn lemma_len(self)
        requires
            self.wf(),
        ensures
            self.map().len() == self.keys@.len(),
    {
        let ks = self.keys@.map_values(|k: String| k@);
        assert(ks.no_duplicates()) by {
            assert forall|i: int, j: int| 0 <= i < ks.len() && 0 <= j < ks.len() && i != j implies ks[i] != ks[j] by {
                if i < j {
                } else {
                }
            }
        }
        assert(self.table@.dom() =~= ks.to_set()) by {
            assert forall|k: Seq<char>| self.table@.dom().contains(k) implies ks.to_set().contains(k) by {
                let i = choose|i: int| 0 <= i < self.keys@.len() && self.keys@[i]@ == k;
                assert(ks[i] == k);
            }
            assert forall|k: Seq<char>| ks.to_set().contains(k) implies self.table@.dom().contains(k) by {
                let i = choose|i: int| 0 <= i < ks.len() && ks[i] == k;
                assert(self.keys@[i]@ == k);
            }
        }
        ks.unique_seq_to_set();
        assert(self.map().dom() =~= self.table@.dom());
    }
}

/// How coarsely colors are quantized when an image is converted.
#[derive(Debug, Clone, Copy, PartialEq, Eq, Structural)]
pub enum QuantizationLevel {
    Standard,
    Toon,
    Posterized,
    Retro,
}

impl QuantizationLevel {
    /// The quantization step of the level.
    pub open spec fn step(self) -> u8 {
        match self {
            QuantizationLevel::Standard => 16,
            QuantizationLevel::Toon => 32,
            QuantizationLevel::Posterized => 48,
            QuantizationLevel::Retro => 64,
        }
    }

    /// The level whose step is `val`; every other value means `Standard`.
    pub open spec fn of_step(val: u8) -> QuantizationLevel {
        if val == 32 {
            QuantizationLevel::Toon
        } else if val == 48 {
            QuantizationLevel::Posterized
        } else if val == 64 {
            QuantizationLevel::Retro
        } else {
            QuantizationLevel::Standard
        }
    }

    /// The next coarser level; `Retro` is the coarsest.
    pub open spec fn spec_next(self) -> QuantizationLevel {
        match self {
            QuantizationLevel::Standard => QuantizationLevel::Toon,
            QuantizationLevel::Toon => QuantizationLevel::Posterized,
            QuantizationLevel::Posterized => QuantizationLevel::Retro,
            QuantizationLevel::Retro => QuantizationLevel::Retro,
        }
    }

    /// The next finer level; `Standard` is the finest.
    pub open spec fn spec_prev(self) -> QuantizationLevel {
        match self {
            QuantizationLevel::Standard => QuantizationLevel::Standard,
            QuantizationLevel::Toon => QuantizationLevel::Standard,
            QuantizationLevel::Posterized => QuantizationLevel::Toon,
            QuantizationLevel::Retro => QuantizationLevel::Posterized,
        }
    }

    /// The label shown in the conversion settings.
    pub open spec fn spec_description(self) -> Seq<char> {
        match self {
            QuantizationLevel::Standard => "16 (standard)"@,
            QuantizationLevel::Toon => "32 (toon)"@,
            QuantizationLevel::Posterized => "48 (posterized)"@,
            QuantizationLevel::Retro => "64 (retro)"@,
        }
    }

    /// The quantization step of the level.
    pub fn to_u8(self) -> (r: u8)
        ensures
            r == self.step(),
    {
        match self {
            QuantizationLevel::Standard => 16,
            QuantizationLevel::Toon => 32,
            QuantizationLevel::Posterized => 48,
            QuantizationLevel::Retro => 64,
        }
    }

    /// The level of a step; an unknown step means `Standard`.
    pub fn from_u8(val: u8) -> (r: Self)
        ensures
            r == Self::of_step(val),
    {
        match val {
            32 => QuantizationLevel::Toon,
            48 => QuantizationLevel::Posterized,
            64 => QuantizationLevel::Retro,
            _ => QuantizationLevel::Standard,
        }
    }

    /// The label shown in the conversion settings.
    pub fn description(self) -> (r: &'static str)
        ensures
            r@ == self.spec_description(),
    {
        match self {
            QuantizationLevel::Standard => "16 (standard)",
            QuantizationLevel::Toon => "32 (toon)",
            QuantizationLevel::Posterized => "48 (posterized)",
            QuantizationLevel::Retro => "64 (retro)",
        }
    }

    /// The next coarser level; `Retro` stays.
    pub fn next(self) -> (r: Self)
        ensures
            r == self.spec_next(),
    {
        match self {
            QuantizationLevel::Standard => QuantizationLevel::Toon,
            QuantizationLevel::Toon => QuantizationLevel::Posterized,
            QuantizationLevel::Posterized => QuantizationLevel::Retro,
            QuantizationLevel::Retro => QuantizationLevel::Retro,
        }
    }

    /// The next finer level; `Standard` stays.
    pub fn prev(self) -> (r: Self)
        ensures
            r == self.spec_prev(),
    {
        match self {
            QuantizationLevel::Standard => QuantizationLevel::Standard,
            QuantizationLevel::Toon => QuantizationLevel::Standard,
            QuantizationLevel::Posterized => QuantizationLevel::Toon,
            QuantizationLevel::Retro => QuantizationLevel::Posterized,
        }
    }
}

/// A level survives the round trip through its step value.
pub proof fn lemma_quantization_step_roundtrip(q: QuantizationLevel)
    ensures
        QuantizationLevel::of_step(q.step()) == q,
{
}

/// Every step value that names a level comes back unchanged; every other value reads as 16.
pub proof fn lemma_quantization_of_step(val: u8)
    ensures
        QuantizationLevel::of_step(val).step() == (if val == 32 || val == 48 || val == 64 { val } else { 16u8 }),
{
}

/// Each coarser level adds 16 to the step, and the step never exceeds 64.
pub proof fn lemma_quantization_next_step(q: QuantizationLevel)
    ensures
        q != QuantizationLevel::Retro ==> q.spec_next().step() == q.step() + 16,
        q == QuantizationLevel::Retro ==> q.spec_next() == q,
        16 <= q.step() <= 64,
{
}

/// A level's label starts with its step in decimal, then a space.
pub proof fn lemma_quantization_description(q: QuantizationLevel)
    ensures
        q.spec_description().subrange(0, 2) == crate::text::dec(q.step() as nat),
        q.spec_description()[2] == ' ',
{
    reveal_strlit("16 (standard)");
    reveal_strlit("32 (toon)");
    reveal_strlit("48 (posterized)");
    reveal_strlit("64 (retro)");
    let n = q.step() as nat;
    assert(crate::text::dec(n) == crate::text::dec(n / 10).push(crate::text::digit_char(n % 10)));
    assert(q.spec_description().subrange(0, 2) =~= crate::text::dec(n));
}

/// Stepping coarser then finer returns to the start, except from the coarsest level;
/// stepping finer then coarser returns to the start, except from the finest level.
pub proof fn lemma_quantization_next_prev(q: QuantizationLevel)
    ensures
        q != QuantizationLevel::Retro ==> q.spec_next().spec_prev() == q,
        q != QuantizationLevel::Standard ==> q.spec_prev().spec_next() == q,
{
}

/// The character set used when converting an image.
#[derive(Debug, PartialEq, Eq)]
pub enum CharsetPreset {
    Blocks,
    Standard,
    Detailed,
    Custom(String),
}

impl Clone for CharsetPreset {
    fn clone(&self) -> (r: Self)
        ensures
            r == *self,
    {
        match self {
            CharsetPreset::Blocks => CharsetPreset::Blocks,
            CharsetPreset::Standard => CharsetPreset::Standard,
            CharsetPreset::Detailed => CharsetPreset::Detailed,
            CharsetPreset::Custom(s) => CharsetPreset::Custom(s.clone()),
        }
    }
}

impl CharsetPreset {
    /// The name of the preset, or the characters of a custom one.
    pub open spec fn spec_as_str(&self) -> Seq<char> {
        match self {
            CharsetPreset::Blocks => "blocks"@,
            CharsetPreset::Standard => "standard"@,
            CharsetPreset::Detailed => "detailed"@,
            CharsetPreset::Custom(s) => s@,
        }
    }

    /// Whether the preset is one of the three named ones.
    pub open spec fn is_named(&self) -> bool {
        !(self is Custom)
    }

    /// The named preset whose name is `l`, if any.
    pub open spec fn named(l: Seq<char>) -> Option<CharsetPreset> {
        if l == "blocks"@ {
            Some(CharsetPreset::Blocks)
        } else if l == "standard"@ {
            Some(CharsetPreset::Standard)
        } else if l == "detailed"@ {
            Some(CharsetPreset::Detailed)
        } else {
            None
        }
    }

    /// The next named preset in the cycle blocks, standard, detailed; a custom set moves to blocks.
    pub open spec fn spec_next(&self) -> CharsetPreset {
        match self {
            CharsetPreset::Blocks => CharsetPreset::Standard,
            CharsetPreset::Standard => CharsetPreset::Detailed,
            CharsetPreset::Detailed => CharsetPreset::Blocks,
            CharsetPreset::Custom(_) => CharsetPreset::Blocks,
        }
    }

    /// The previous named preset in the cycle; a custom set moves to detailed.
    pub open spec fn spec_prev(&self) -> CharsetPreset {
        match self {
            CharsetPreset::Blocks => CharsetPreset::Detailed,
            CharsetPreset::Standard => CharsetPreset::Blocks,
            CharsetPreset::Detailed => CharsetPreset::Standard,
            CharsetPreset::Custom(_) => CharsetPreset::Detailed,
        }
    }

    /// The name of the preset, or the characters of a custom one.
    pub fn as_str(&self) -> (r: &str)
        ensures
            r@ == self.spec_as_str(),
    {
        match self {
            CharsetPreset::Blocks => "blocks",
            CharsetPreset::Standard => "standard",
            CharsetPreset::Detailed => "detailed",
            CharsetPreset::Custom(s) => s.as_str(),
        }
    }

    /// The preset named `s` in any ASCII letter case; any other text is a custom set of
    /// exactly its characters, as given.
    pub fn from_str(s: &str) -> (r: Self)
        ensures
            match Self::named(seq_ascii_lowercase(s@)) {
                Some(p) => r == p,
                None => r is Custom && r.spec_as_str() == s@,
            },
            seq_ascii_lowercase(r.spec_as_str()) == seq_ascii_lowercase(s@),
            r is Custom ==> r.spec_as_str() == s@,
            r.is_named() ==> r.spec_as_str() == seq_ascii_lowercase(s@),
    {
        proof {
            let l = seq_ascii_lowercase(s@);
            match Self::named(l) {
                Some(p) => {
                    lemma_preset_name_roundtrip(p);
                    reveal_strlit("blocks");
                    reveal_strlit("standard");
                    reveal_strlit("detailed");
                    assert(seq_ascii_lowercase(l) =~= l);
                },
                None => {},
            }
        }
        let l = ascii_lowercase(s);
        let blocks = "blocks".to_string();
        let standard = "standard".to_string();
        let detailed = "detailed".to_string();
        proof {
            broadcast use vstd::string::group_string_axioms;
        }
        if l == blocks {
            CharsetPreset::Blocks
        } else if l == standard {
            CharsetPreset::Standard
        } else if l == detailed {
            CharsetPreset::Detailed
        } else {
            CharsetPreset::Custom(s.to_string())
        }
    }

    /// The next preset in the cycle blocks, standard, detailed; a custom set moves to blocks.
    pub fn next(self) -> (r: Self)
        ensures
            r == self.spec_next(),
    {
        match self {
            CharsetPreset::Blocks => CharsetPreset::Standard,
            CharsetPreset::Standard => CharsetPreset::Detailed,
            CharsetPreset::Detailed => CharsetPreset::Blocks,
            CharsetPreset::Custom(_) => CharsetPreset::Blocks,
        }
    }

    /// The previous preset in the cycle; a custom set moves to detailed.
    pub fn prev(self) -> (r: Self)
        ensures
            r == self.spec_prev(),
    {
        match self {
            CharsetPreset::Blocks => CharsetPreset::Detailed,
            CharsetPreset::Standard => CharsetPreset::Blocks,
            CharsetPreset::Detailed => CharsetPreset::Standard,
            CharsetPreset::Custom(_) => CharsetPreset::Detailed,
        }
    }
}

/// A named preset is found again from its own name, whatever the ASCII case of the name.
pub proof fn lemma_preset_name_roundtrip(p: CharsetPreset)
    requires
        p.is_named(),
    ensures
        seq_ascii_lowercase(p.spec_as_str()) == p.spec_as_str(),
        CharsetPreset::named(seq_ascii_lowercase(p.spec_as_str())) == Some(p),
{
    reveal_strlit("blocks");
    reveal_strlit("standard");
    reveal_strlit("detailed");
    assert(seq_ascii_lowercase(p.spec_as_str()) =~= p.spec_as_str());
    assert("standard"@.len() != "blocks"@.len());
    assert("detailed"@.len() != "blocks"@.len());
    assert("detailed"@[0] != "standard"@[0]);
}

/// The three named presets form a cycle of length three under `next`, and `prev` undoes `next`.
pub proof fn lemma_preset_cycle(p: CharsetPreset)
    ensures
        p.is_named() ==> p.spec_next().spec_next().spec_next() == p,
        p.is_named() ==> p.spec_next().spec_prev() == p,
        p.is_named() ==> p.spec_prev().spec_next() == p,
        p.spec_next().is_named(),
        p.spec_prev().is_named(),
{
}

/// Player defaults kept in the configuration file.
#[derive(Debug, Clone, Copy)]
pub struct AppConfig {
    pub default_noclip: bool,
    pub default_dashboard: bool,
}

impl Default for AppConfig {
    fn default() -> (c: Self)
        ensures
            !c.default_noclip,
            !c.default_dashboard,
    {
        AppConfig { default_noclip: false, default_dashboard: false }
    }
}

} // verus!
