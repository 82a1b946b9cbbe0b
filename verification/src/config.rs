//! The configuration table and its two-tier resolver: a device-type
//! string is looked up exactly, then under the sentinel key `default`,
//! and otherwise resolves to nothing.

use vstd::prelude::*;

use crate::tokens::bytes_eq;

verus! {

/// One configuration entry: a device-model key (or the sentinel
/// `default`), a human-readable label, and the free-form raw argument
/// string for the mirroring binary.
pub struct ConfigEntry {
    pub key: Vec<u8>,
    pub label: Vec<u8>,
    pub raw_args: Vec<u8>,
}

pub ghost struct ConfigEntryView {
    pub key: Seq<u8>,
    pub label: Seq<u8>,
    pub raw_args: Seq<u8>,
}

impl View for ConfigEntry {
    type V = ConfigEntryView;

    open spec fn view(&self) -> ConfigEntryView {
        ConfigEntryView { key: self.key@, label: self.label@, raw_args: self.raw_args@ }
    }
}

/// The bytes of the sentinel key `default`.
pub open spec fn default_key() -> Seq<u8> {
    seq![100u8, 101u8, 102u8, 97u8, 117u8, 108u8, 116u8]
}

/// The entry views of a sequence of entries.
pub open spec fn entry_views(es: Seq<ConfigEntry>) -> Seq<ConfigEntryView> {
    Seq::new(es.len(), |i: int| es[i]@)
}

/// The first entry carrying `key`, if any.
pub open spec fn spec_find(es: Seq<ConfigEntryView>, key: Seq<u8>) -> Option<ConfigEntryView>
    decreases es.len(),
{
    if es.len() == 0 {
        None
    } else if es[0].key == key {
        Some(es[0])
    } else {
        spec_find(es.skip(1), key)
    }
}

/// Two-tier lookup: the exact device type first, the sentinel `default`
/// second, nothing third. This fallback is the entire matching
/// algorithm; there is no fuzzy or prefix matching.
pub open spec fn spec_resolve(es: Seq<ConfigEntryView>, device_type: Seq<u8>) -> Option<
    ConfigEntryView,
> {
    match spec_find(es, device_type) {
        Some(e) => Some(e),
        None => spec_find(es, default_key()),
    }
}

/// A mapping from device-type keys to configuration entries, in load
/// order. The sources it is loaded from are JSON objects, so keys are
/// unique and the first match is the only match.
pub struct ConfigTable {
    pub entries: Vec<ConfigEntry>,
}

impl View for ConfigTable {
    type V = Seq<ConfigEntryView>;

    open spec fn view(&self) -> Seq<ConfigEntryView> {
        entry_views(self.entries@)
    }
}

fn default_word() -> (r: Vec<u8>)
    ensures
        r@ == default_key(),
{
    let mut v: Vec<u8> = Vec::new();
    v.push(100u8);
    v.push(101u8);
    v.push(102u8);
    v.push(97u8);
    v.push(117u8);
    v.push(108u8);
    v.push(116u8);
    proof {
        assert(v@ =~= default_key());
    }
    v
}

impl ConfigTable {
    pub fn new() -> (r: Self)
        ensures
            r@ == Seq::<ConfigEntryView>::empty(),
    {
        let t = ConfigTable { entries: Vec::new() };
        proof {
            assert(t@ =~= Seq::<ConfigEntryView>::empty());
        }
        t
    }

    /// Append one entry at the end of the table.
    pub fn push_entry(&mut self, e: ConfigEntry)
        ensures
            final(self)@ == old(self)@.push(e@),
    {
        let ghost v = e@;
        self.entries.push(e);
        proof {
            assert(self@ =~= old(self)@.push(v));
        }
    }

    /// The first entry carrying exactly `key`, if any.
    pub fn find(&self, key: &[u8]) -> (r: Option<&ConfigEntry>)
        ensures
            match r {
                Option::None => spec_find(self@, key@) is None,
                Option::Some(e) => spec_find(self@, key@) == Some(e@),
            },
    {
        let mut i: usize = 0;
        proof {
            assert(self@.skip(0) =~= self@);
        }
        while i < self.entries.len()
            invariant
                i <= self.entries.len(),
                spec_find(self@, key@) == spec_find(self@.skip(i as int), key@),
            decreases self.entries.len() - i,
        {
            proof {
                assert(self@.skip(i as int)[0] == self@[i as int]);
                assert(self@.skip(i as int).skip(1) =~= self@.skip(i as int + 1));
            }
            if bytes_eq(self.entries[i].key.as_slice(), key) {
                return Some(&self.entries[i]);
            }
            i = i + 1;
        }
        proof {
            assert(self@.skip(self@.len() as int) =~= Seq::<ConfigEntryView>::empty());
        }
        None
    }

    /// Resolve a device type: exact match, else the sentinel `default`,
    /// else nothing.
    pub fn resolve(&self, device_type: &[u8]) -> (r: Option<&ConfigEntry>)
        ensures
            match r {
                Option::None => spec_resolve(self@, device_type@) is None,
                Option::Some(e) => spec_resolve(self@, device_type@) == Some(e@),
            },
    {
        let hit = self.find(device_type);
        match hit {
            Some(e) => Some(e),
            None => {
                let dk = default_word();
                self.find(dk.as_slice())
            },
        }
    }
}

/// The table used at startup: the primary source when it parsed, else
/// the fallback source, else the empty table. A source that failed to
/// load or parse arrives here as nothing.
pub fn choose_config(primary: Option<ConfigTable>, fallback: Option<ConfigTable>) -> (r:
    ConfigTable)
    ensures
        match primary {
            Option::Some(t) => r@ == t@,
            Option::None => match fallback {
                Option::Some(t) => r@ == t@,
                Option::None => r@ == Seq::<ConfigEntryView>::empty(),
            },
        },
{
    match primary {
        Some(t) => t,
        None => match fallback {
            Some(t) => t,
            None => ConfigTable::new(),
        },
    }
}

} // verus!
