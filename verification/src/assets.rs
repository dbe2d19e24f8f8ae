//! Local image asset registry.
//!
//! An image object never carries pixel data itself, only an `AssetId`. The
//! bytes live behind each asset's `reference`, one entry per imported file,
//! so several objects can show the same picture without copying it.
//!
//! `reference` is the string the renderer hands to an SVG `<image href>`:
//! while editing, a session-local object URL; in a saved file, a
//! self-contained `data:` URL. This module holds the registry and the
//! pure string side of that conversion (building and splitting `data:`
//! URLs); fetching and decoding the bytes is the application's job.

use std::collections::HashMap;

use vstd::prelude::*;
use vstd::std_specs::hash::*;
use vstd::string::{StrSliceExecFns, StringExecFns};

use crate::text::chars_of;

verus! {

broadcast use vstd::std_specs::hash::group_hash_axioms;

pub type AssetId = u64;

pub struct Asset<F> {
    pub id: AssetId,
    pub filename: String,
    pub mime_type: String,
    /// Natural pixel dimensions of the source file.
    pub width: F,
    pub height: F,
    /// Where the renderer can load pixels from.
    pub reference: String,
}

impl<F: Copy> Clone for Asset<F> {
    fn clone(&self) -> (res: Self)
        ensures
            res == *self,
    {
        Asset {
            id: self.id,
            filename: self.filename.clone(),
            mime_type: self.mime_type.clone(),
            width: self.width,
            height: self.height,
            reference: self.reference.clone(),
        }
    }
}

pub struct AssetManager<F> {
    assets: HashMap<AssetId, Asset<F>>,
    next_id: AssetId,
}

impl<F> View for AssetManager<F> {
    type V = Map<AssetId, Asset<F>>;

    closed spec fn view(&self) -> Map<AssetId, Asset<F>> {
        self.assets@
    }
}

/// The registry holding `entries`, a later entry replacing an earlier one
/// with the same id.
pub open spec fn entries_map<F>(entries: Seq<Asset<F>>) -> Map<AssetId, Asset<F>>
    decreases entries.len(),
{
    if entries.len() == 0 {
        Map::empty()
    } else {
        entries_map(entries.drop_last()).insert(entries.last().id, entries.last())
    }
}

/// Every asset of `entries_map(entries)` is stored under its own id and
/// comes from `entries`.
proof fn lemma_entries_map_keys<F>(entries: Seq<Asset<F>>)
    ensures
        forall|k: AssetId| #[trigger] entries_map(entries).contains_key(k) ==> {
            &&& entries_map(entries)[k].id == k
            &&& exists|i: int| 0 <= i < entries.len() && entries[i] == entries_map(entries)[k]
        },
    decreases entries.len(),
{
    if entries.len() > 0 {
        lemma_entries_map_keys(entries.drop_last());
        assert forall|k: AssetId| #[trigger] entries_map(entries).contains_key(k) implies {
            &&& entries_map(entries)[k].id == k
            &&& exists|i: int| 0 <= i < entries.len() && entries[i] == entries_map(entries)[k]
        } by {
            if k == entries.last().id {
                assert(entries[entries.len() - 1] == entries_map(entries)[k]);
            } else {
                let prev = entries.drop_last();
                let i = choose|i: int| 0 <= i < prev.len() && prev[i] == entries_map(prev)[k];
                assert(entries[i] == entries_map(entries)[k]);
            }
        }
    }
}

impl<F: Copy> Default for AssetManager<F> {
    /// No assets, counter at zero.
    fn default() -> (manager: Self)
        ensures
            manager@ == Map::<AssetId, Asset<F>>::empty(),
            manager.next_id() == 0,
            manager.well_formed(),
    {
        AssetManager::new()
    }
}

impl<F: Copy> AssetManager<F> {
    /// The last id handed out (ids start at 1).
    pub closed spec fn next_id(&self) -> AssetId {
        self.next_id
    }

    /// Every registered asset is stored under its own id, and every id was
    /// handed out by the counter.
    pub closed spec fn well_formed(&self) -> bool {
        forall|k: AssetId| #[trigger] self.assets@.contains_key(k) ==> self.assets@[k].id == k && k <= self.next_id
    }

    pub fn new() -> (manager: Self)
        ensures
            manager@ == Map::<AssetId, Asset<F>>::empty(),
            manager.next_id() == 0,
            manager.well_formed(),
    {
        AssetManager { assets: HashMap::new(), next_id: 0 }
    }

    /// A registry restored from its entries and its counter (a document
    /// read back from disk). It is well formed when no entry's id is past
    /// the counter.
    pub fn from_entries(entries: &Vec<Asset<F>>, next_id: AssetId) -> (manager: Self)
        ensures
            manager@ == entries_map(entries@),
            manager.next_id() == next_id,
            (forall|i: int| 0 <= i < entries@.len() ==> #[trigger] entries@[i].id <= next_id) ==> manager.well_formed(),
    {
        let mut assets: HashMap<AssetId, Asset<F>> = HashMap::new();
        for k in 0..entries.len()
            invariant
                assets@ == entries_map(entries@.take(k as int)),
        {
            let entry = entries[k].clone();
            assert(entries@.take(k + 1).drop_last() =~= entries@.take(k as int));
            assets.insert(entry.id, entry);
        }
        assert(entries@.take(entries@.len() as int) =~= entries@);
        let manager = AssetManager { assets, next_id };
        proof {
            lemma_entries_map_keys(entries@);
        }
        manager
    }

    /// The last id handed out.
    pub fn last_id(&self) -> (id: AssetId)
        ensures
            id == self.next_id(),
    {
        self.next_id
    }

    /// Registers a newly imported file and returns its id, the next value
    /// of the counter. Entries are never removed.
    pub fn insert(&mut self, filename: String, mime_type: String, width: F, height: F, reference: String) -> (id: AssetId)
        requires
            old(self).next_id() < u64::MAX,
        ensures
            id == old(self).next_id() + 1,
            final(self).next_id() == id,
            final(self)@ == old(self)@.insert(id, Asset { id, filename, mime_type, width, height, reference }),
            old(self).well_formed() ==> final(self).well_formed(),
            old(self).well_formed() ==> !old(self)@.contains_key(id),
    {
        self.next_id = self.next_id + 1;
        let id = self.next_id;
        self.assets.insert(id, Asset { id, filename, mime_type, width, height, reference });
        id
    }

    pub fn get(&self, id: AssetId) -> (asset: Option<&Asset<F>>)
        ensures
            match asset {
                Some(a) => self@.contains_key(id) && *a == self@[id],
                None => !self@.contains_key(id),
            },
    {
        self.assets.get(&id)
    }

    /// Every registered asset's id, each once, in no particular order (the
    /// order in which the underlying hash map is walked).
    pub fn ids(&self) -> (ids: Vec<AssetId>)
        ensures
            ids@.to_set() == self@.dom(),
            ids@.no_duplicates(),
    {
        let mut ids: Vec<AssetId> = Vec::new();
        for k in it: self.assets.keys()
            invariant
                ids@ == it.seq().take(it.index() as int).unref(),
                it.seq().unref().to_set() == self@.dom(),
                it.seq().unref().no_duplicates(),
        ensures
            ids@ == it.seq().unref(),
        {
            ids.push(*k);
            proof {
                assert(it.seq().take(it.index() as int + 1).unref()
                    =~= ids@);
            }
        }
        ids
    }

    /// Overwrites `id`'s `reference` in place; does nothing if `id` isn't
    /// registered.
    pub fn set_reference(&mut self, id: AssetId, reference: String)
        ensures
            final(self).next_id() == old(self).next_id(),
            old(self)@.contains_key(id) ==> final(self)@ == old(self)@.insert(
                id,
                Asset { reference, ..old(self)@[id] },
            ),
            !old(self)@.contains_key(id) ==> final(self)@ == old(self)@,
            old(self).well_formed() ==> final(self).well_formed(),
    {
        let updated = match self.assets.get(&id) {
            Some(asset) => {
                let mut copy = asset.clone();
                copy.reference = reference;
                Some(copy)
            },
            None => None,
        };
        if let Some(asset) = updated {
            self.assets.insert(id, asset);
        }
    }
}


/// The prefix every `data:` URL starts with.
pub open spec fn data_prefix() -> Seq<char> {
    seq!['d', 'a', 't', 'a', ':']
}

/// `s` starts with `data:`.
pub open spec fn starts_with_data(s: Seq<char>) -> bool {
    s.len() >= 5 && s.take(5) == data_prefix()
}

/// The position of the first `c` in `s` at or after `from`, if any.
pub open spec fn first_at_or_after(s: Seq<char>, c: char, from: int, i: int) -> bool {
    &&& from <= i < s.len()
    &&& s[i] == c
    &&& forall|j: int| from <= j < i ==> s[j] != c
}

/// `data:<mime>[;...],<payload>` split into its mime type (the header up to
/// the first `;`, which must not be empty) and its payload (everything
/// after the first `,`).
pub open spec fn parsed_data_url(s: Seq<char>) -> Option<(Seq<char>, Seq<char>)> {
    if starts_with_data(s) && exists|c: int| first_at_or_after(s, ',', 5, c) {
        let c = choose|c: int| first_at_or_after(s, ',', 5, c);
        let header = s.subrange(5, c);
        let m = if exists|k: int| first_at_or_after(header, ';', 0, k) {
            choose|k: int| first_at_or_after(header, ';', 0, k)
        } else {
            header.len() as int
        };
        if m > 0 {
            Some((header.take(m), s.subrange(c + 1, s.len() as int)))
        } else {
            None
        }
    } else {
        None
    }
}

proof fn lemma_first_unique(s: Seq<char>, c: char, from: int, i: int, j: int)
    requires
        first_at_or_after(s, c, from, i),
        first_at_or_after(s, c, from, j),
    ensures
        i == j,
{
}

/// The first `c` in `s` at or after `from`.
fn find_char(s: &Vec<char>, c: char, from: usize, to: usize) -> (found: Option<usize>)
    requires
        from <= to <= s@.len(),
    ensures
        match found {
            Some(i) => from <= i < to && s@[i as int] == c && forall|j: int| from <= j < i ==> s@[j] != c,
            None => forall|j: int| from <= j < to ==> s@[j] != c,
        },
{
    let mut i = from;
    while i < to
        invariant
            from <= i <= to <= s@.len(),
            forall|j: int| from <= j < i ==> s@[j] != c,
        decreases to - i,
    {
        if s[i] == c {
            return Some(i);
        }
        i += 1;
    }
    None
}

/// Whether `reference` is already a self-contained `data:` URL (nothing to
/// fetch when saving or exporting).
pub fn is_data_url(reference: &str) -> (b: bool)
    ensures
        b == starts_with_data(reference@),
{
    let s = chars_of(reference);
    if s.len() < 5 {
        return false;
    }
    let b = s[0] == 'd' && s[1] == 'a' && s[2] == 't' && s[3] == 'a' && s[4] == ':';
    assert(b == (s@.take(5) =~= data_prefix()));
    b
}

/// Splits a `data:<mime>;base64,<payload>` URL into its mime type and its
/// payload. Anything that is not a `data:` URL, has no `,`, or has an empty
/// mime type gives `None`.
pub fn parse_data_url(data_url: &str) -> (parts: Option<(&str, &str)>)
    ensures
        match parts {
            Some((mime, payload)) => parsed_data_url(data_url@) == Some((mime@, payload@)),
            None => parsed_data_url(data_url@) is None,
        },
{
    let s = chars_of(data_url);
    let n = s.len();
    if !is_data_url(data_url) {
        return None;
    }
    match find_char(&s, ',', 5, n) {
        None => {
            proof {
                if exists|c: int| first_at_or_after(s@, ',', 5, c) {
                    let c = choose|c: int| first_at_or_after(s@, ',', 5, c);
                    assert(s@[c] == ',');
                }
            }
            None
        },
        Some(comma) => {
            proof {
                assert(first_at_or_after(s@, ',', 5, comma as int));
                let c = choose|c: int| first_at_or_after(s@, ',', 5, c);
                lemma_first_unique(s@, ',', 5, c, comma as int);
            }
            let ghost header = s@.subrange(5, comma as int);
            let semi = find_char(&s, ';', 5, comma);
            let mime_end = match semi {
                Some(k) => {
                    proof {
                        assert(first_at_or_after(header, ';', 0, k - 5));
                        let j = choose|j: int| first_at_or_after(header, ';', 0, j);
                        lemma_first_unique(header, ';', 0, j, k - 5);
                    }
                    k
                },
                None => {
                    proof {
                        if exists|j: int| first_at_or_after(header, ';', 0, j) {
                            let j = choose|j: int| first_at_or_after(header, ';', 0, j);
                            assert(s@[j + 5] == ';');
                        }
                    }
                    comma
                },
            };
            if mime_end == 5 {
                None
            } else {
                let mime = data_url.substring_char(5, mime_end);
                let payload = data_url.substring_char(comma + 1, n);
                assert(mime@ =~= header.take(mime_end - 5));
                Some((mime, payload))
            }
        },
    }
}

/// `data:<mime>;base64,<payload>`: the self-contained form an asset's
/// reference takes in a saved or exported file.
pub open spec fn data_url_text(mime_type: Seq<char>, base64: Seq<char>) -> Seq<char> {
    data_prefix() + mime_type + seq![';', 'b', 'a', 's', 'e', '6', '4', ','] + base64
}

/// Builds the `data:` URL for a mime type and a base64 payload.
pub fn data_url(mime_type: &str, base64: &str) -> (url: String)
    ensures
        url@ == data_url_text(mime_type@, base64@),
{
    let mut url = String::from_str("data:");
    url.append(mime_type);
    url.append(";base64,");
    url.append(base64);
    proof {
        reveal_strlit("data:");
        reveal_strlit(";base64,");
    }
    assert(url@ =~= data_url_text(mime_type@, base64@));
    url
}

/// What `data_url` builds, `parse_data_url` splits back, for any mime type
/// that is not empty and holds no `;` or `,`.
pub proof fn lemma_data_url_round_trip(mime_type: Seq<char>, base64: Seq<char>)
    requires
        mime_type.len() > 0,
        !mime_type.contains(';'),
        !mime_type.contains(','),
    ensures
        parsed_data_url(data_url_text(mime_type, base64)) == Some((mime_type, base64)),
{
    let s = data_url_text(mime_type, base64);
    let m = mime_type.len() as int;
    let comma = 5 + m + 7;
    assert(s.take(5) =~= data_prefix());
    assert forall|j: int| 5 <= j < comma implies s[j] != ',' by {
        if j < 5 + m {
            assert(s[j] == mime_type[j - 5]);
        }
    }
    assert(first_at_or_after(s, ',', 5, comma));
    let c = choose|c: int| first_at_or_after(s, ',', 5, c);
    lemma_first_unique(s, ',', 5, c, comma);
    let header = s.subrange(5, comma);
    assert forall|j: int| 0 <= j < m implies header[j] != ';' by {
        assert(header[j] == mime_type[j]);
    }
    assert(first_at_or_after(header, ';', 0, m));
    let k = choose|k: int| first_at_or_after(header, ';', 0, k);
    lemma_first_unique(header, ';', 0, k, m);
    assert(header.take(m) =~= mime_type);
    assert(s.subrange(comma + 1, s.len() as int) =~= base64);
}

} // verus!
