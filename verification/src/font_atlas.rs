//! The set of rasterized font atlases and the eviction of atlases of fonts no longer in use.
use vstd::prelude::*;

verus! {

/// How glyphs of a font are smoothed when rasterized.
#[derive(PartialEq, Eq, Structural, Clone, Copy, Debug)]
pub enum FontSmoothing {
    /// No smoothing: hard edges.
    NoSmoothing,
    /// Anti-aliased edges.
    AntiAliased,
}

/// Identifies the font atlases for a particular font: the font asset, the bits of the font
/// size and the smoothing.
#[derive(PartialEq, Eq, Structural, Clone, Copy, Debug)]
pub struct FontAtlasKey(pub u64, pub u32, pub FontSmoothing);

/// One atlas of rasterized glyphs, by the cache keys of the glyphs it holds.
pub struct FontAtlas {
    pub glyphs: Vec<u64>,
}

impl FontAtlas {
    /// Whether this atlas holds the glyph with the given cache key.
    pub fn has_glyph(&self, cache_key: u64) -> (r: bool)
        ensures
            r == self.glyphs@.contains(cache_key),
    {
        let mut i: usize = 0;
        while i < self.glyphs.len()
            invariant
                0 <= i <= self.glyphs@.len(),
                forall|j: int| 0 <= j < i ==> self.glyphs@[j] != cache_key,
            decreases self.glyphs@.len() - i,
        {
            if self.glyphs[i] == cache_key {
                return true;
            }
            i = i + 1;
        }
        false
    }
}

/// The atlases of one font.
pub struct FontAtlasEntry {
    pub key: FontAtlasKey,
    pub atlases: Vec<FontAtlas>,
}

/// Set of rasterized fonts stored in [`FontAtlas`]es, keyed by [`FontAtlasKey`].
pub struct FontAtlasSet {
    entries: Vec<FontAtlasEntry>,
}

/// No key occurs twice in `s`.
pub open spec fn distinct_keys(s: Seq<FontAtlasKey>) -> bool {
    forall|i: int, j: int| 0 <= i < j < s.len() ==> s[i] != s[j]
}

/// The atlases of each font that `new` still stores are those that `old` stored for it.
pub open spec fn keeps_atlases(old: FontAtlasSet, new: FontAtlasSet) -> bool {
    forall|i: int, j: int| 0 <= i < new.key_seq().len() && 0 <= j < old.key_seq().len()
        && #[trigger] new.key_seq()[i] == #[trigger] old.key_seq()[j] ==> new.atlases_at(i) == old.atlases_at(j)
}

/// A set keeps its own atlases.
proof fn lemma_keeps_atlases_refl(a: FontAtlasSet)
    requires
        a.wf(),
    ensures
        keeps_atlases(a, a),
{
}

/// Keeping atlases composes, where the fonts of `c` are fonts of `b`.
proof fn lemma_keeps_atlases_trans(a: FontAtlasSet, b: FontAtlasSet, c: FontAtlasSet)
    requires
        keeps_atlases(a, b),
        keeps_atlases(b, c),
        forall|i: int| 0 <= i < c.key_seq().len() ==> b.key_seq().contains(#[trigger] c.key_seq()[i]),
    ensures
        keeps_atlases(a, c),
{
    assert forall|i: int, j: int| 0 <= i < c.key_seq().len() && 0 <= j < a.key_seq().len()
        && #[trigger] c.key_seq()[i] == #[trigger] a.key_seq()[j] implies c.atlases_at(i) == a.atlases_at(j) by {
        assert(b.key_seq().contains(c.key_seq()[i]));
        let m = choose|m: int| 0 <= m < b.key_seq().len() && b.key_seq()[m] == c.key_seq()[i];
        assert(c.atlases_at(i) == b.atlases_at(m));
        assert(b.atlases_at(m) == a.atlases_at(j));
    }
}

impl FontAtlasSet {
    /// The keys of the fonts, in storage order.
    pub closed spec fn key_seq(&self) -> Seq<FontAtlasKey> {
        self.entries@.map_values(|e: FontAtlasEntry| e.key)
    }

    /// The keys of the fonts.
    pub open spec fn keys(&self) -> Set<FontAtlasKey> {
        self.key_seq().to_set()
    }

    /// Each font has one entry.
    pub open spec fn wf(&self) -> bool {
        distinct_keys(self.key_seq())
    }

    /// The glyph keys of the atlases stored for the font at storage position `i`.
    pub closed spec fn atlases_at(&self, i: int) -> Seq<Seq<u64>> {
        self.entries@[i].atlases@.map_values(|a: FontAtlas| a.glyphs@)
    }

    /// An empty set.
    pub fn new() -> (r: Self)
        ensures
            r.wf(),
            r.key_seq() == Seq::<FontAtlasKey>::empty(),
    {
        let r = FontAtlasSet { entries: Vec::new() };
        assert(r.key_seq() =~= Seq::<FontAtlasKey>::empty());
        r
    }

    /// The number of fonts.
    pub fn len(&self) -> (n: usize)
        ensures
            n == self.key_seq().len(),
    {
        self.entries.len()
    }

    /// The storage position of the font `key`, if it is stored.
    fn position(&self, key: &FontAtlasKey) -> (r: Option<usize>)
        ensures
            r.is_none() <==> !self.key_seq().contains(*key),
            r.is_some() ==> r.unwrap() < self.key_seq().len() && self.key_seq()[r.unwrap() as int]
                == *key,
    {
        let mut i: usize = 0;
        while i < self.entries.len()
            invariant
                0 <= i <= self.entries@.len(),
                forall|j: int| 0 <= j < i ==> self.key_seq()[j] != *key,
            decreases self.entries@.len() - i,
        {
            if self.entries[i].key == *key {
                return Some(i);
            }
            i = i + 1;
        }
        None
    }

    /// Whether the font `key` is stored.
    pub fn contains_key(&self, key: &FontAtlasKey) -> (r: bool)
        ensures
            r == self.keys().contains(*key),
    {
        self.position(key).is_some()
    }

    /// Stores `atlases` for the font `key`, replacing any atlases it had.
    pub fn insert(&mut self, key: FontAtlasKey, atlases: Vec<FontAtlas>)
        requires
            old(self).wf(),
        ensures
            final(self).wf(),
            old(self).key_seq().contains(key) ==> final(self).key_seq() == old(self).key_seq(),
            !old(self).key_seq().contains(key) ==> final(self).key_seq() == old(
                self,
            ).key_seq().push(key),
            forall|i: int| 0 <= i < final(self).key_seq().len() && final(self).key_seq()[i] == key
                ==> final(self).atlases_at(i) == atlases@.map_values(|a: FontAtlas| a.glyphs@),
            forall|i: int| 0 <= i < old(self).key_seq().len() && old(self).key_seq()[i] != key
                ==> final(self).atlases_at(i) == old(self).atlases_at(i),
    {
        match self.position(&key) {
            Some(i) => {
                let mut e = FontAtlasEntry { key, atlases };
                self.entries.set(i, e);
                assert(self.key_seq() =~= old(self).key_seq());
            },
            None => {
                self.entries.push(FontAtlasEntry { key, atlases });
                assert(self.key_seq() =~= old(self).key_seq().push(key));
            },
        }
    }

    /// Removes the font `key` and its atlases.
    pub fn remove(&mut self, key: &FontAtlasKey)
        requires
            old(self).wf(),
        ensures
            final(self).wf(),
            final(self).key_seq() == old(self).key_seq().filter(|k: FontAtlasKey| k != *key),
            keeps_atlases(*old(self), *final(self)),
    {
        let ghost pred = |k: FontAtlasKey| k != *key;
        match self.position(key) {
            Some(i) => {
                self.entries.remove(i);
                proof {
                    lemma_filter_drop_unique(old(self).key_seq(), i as int, *key);
                    assert(self.key_seq() =~= old(self).key_seq().remove(i as int));
                    assert forall|a: int, b: int| 0 <= a < self.key_seq().len() && 0 <= b < old(self).key_seq().len()
                        && #[trigger] self.key_seq()[a] == #[trigger] old(self).key_seq()[b]
                        implies self.atlases_at(a) == old(self).atlases_at(b) by {
                        let c = if a < i { a } else { a + 1 };
                        assert(self.entries@[a] == old(self).entries@[c]);
                        assert(self.key_seq()[a] == old(self).key_seq()[c]);
                    }
                }
            },
            None => {
                proof {
                    lemma_filter_keeps_all(old(self).key_seq(), *key);
                    assert(self.entries@ == old(self).entries@);
                }
            },
        }
    }

    /// Removes the atlases of every font of the asset `asset_id`.
    pub fn retain_other_assets(&mut self, asset_id: u64)
        requires
            old(self).wf(),
        ensures
            final(self).wf(),
            final(self).key_seq() == old(self).key_seq().filter(|k: FontAtlasKey| k.0 != asset_id),
            keeps_atlases(*old(self), *final(self)),
    {
        let ghost pred = |k: FontAtlasKey| k.0 != asset_id;
        let ghost start = self.key_seq();
        let mut kept: Vec<FontAtlasEntry> = Vec::new();
        let mut rest: Vec<FontAtlasEntry> = Vec::new();
        core::mem::swap(&mut rest, &mut self.entries);
        let ghost all = rest@;
        assert(rest@ =~= all.skip(0));
        let mut i: usize = 0;
        let n = rest.len();
        while i < n
            invariant
                n == all.len(),
                0 <= i <= n,
                rest@ == all.skip(i as int),
                kept@.map_values(|e: FontAtlasEntry| e.key) == all.take(i as int).map_values(
                    |e: FontAtlasEntry| e.key,
                ).filter(pred),
                start == all.map_values(|e: FontAtlasEntry| e.key),
                pred == (|k: FontAtlasKey| k.0 != asset_id),
                all == old(self).entries@,
                forall|a: int| 0 <= a < kept@.len() ==> exists|m: int| 0 <= m < i && #[trigger] kept@[a] == all[m],
            decreases n - i,
        {
            let e = rest.remove(0);
            proof {
                assert(e == all[i as int]);
                assert(rest@ =~= all.skip(i as int + 1));
                let ks = all.take(i as int + 1).map_values(|e: FontAtlasEntry| e.key);
                assert(ks.drop_last() =~= all.take(i as int).map_values(|e: FontAtlasEntry| e.key));
                reveal_with_fuel(Seq::filter, 1);
            }
            let ghost kept_before = kept@;
            if e.key.0 != asset_id {
                kept.push(e);
            }
            proof {
                assert forall|a: int| 0 <= a < kept@.len() implies exists|m: int| 0 <= m < i + 1 && #[trigger] kept@[a] == all[m] by {
                    if a < kept_before.len() {
                        let m = choose|m: int| 0 <= m < i && #[trigger] kept_before[a] == all[m];
                        assert(kept@[a] == all[m]);
                    } else {
                        assert(kept@[a] == all[i as int]);
                    }
                }
            }
            proof {
                assert(kept@.map_values(|e: FontAtlasEntry| e.key) =~= all.take(i as int + 1).map_values(|e: FontAtlasEntry| e.key).filter(pred));
            }
            i = i + 1;
        }
        self.entries = kept;
        proof {
            assert(all.take(n as int) =~= all);
            lemma_filter_distinct(start, pred);
            assert forall|a: int, b: int| 0 <= a < self.key_seq().len() && 0 <= b < old(self).key_seq().len()
                && #[trigger] self.key_seq()[a] == #[trigger] old(self).key_seq()[b]
                implies self.atlases_at(a) == old(self).atlases_at(b) by {
                let m = choose|m: int| 0 <= m < n && #[trigger] self.entries@[a] == all[m];
                assert(old(self).key_seq()[m] == self.key_seq()[a]);
            }
        }
    }

    /// Whether the glyph with the given cache key is in any of the atlases of the font `font_key`.
    pub fn has_glyph(&self, cache_key: u64, font_key: &FontAtlasKey) -> (r: bool)
        requires
            self.wf(),
        ensures
            r == exists|i: int, j: int|
                0 <= i < self.key_seq().len() && self.key_seq()[i] == *font_key && 0 <= j
                    < self.atlases_at(i).len() && #[trigger] self.atlases_at(i)[j].contains(
                    cache_key,
                ),
    {
        match self.position(font_key) {
            None => false,
            Some(p) => {
                let atlases = &self.entries[p].atlases;
                let mut j: usize = 0;
                while j < atlases.len()
                    invariant
                        0 <= j <= atlases@.len(),
                        p < self.entries@.len(),
                        self.key_seq()[p as int] == *font_key,
                        *atlases == self.entries@[p as int].atlases,
                        forall|k: int| 0 <= k < j ==> !(#[trigger] self.atlases_at(p as int)[k]).contains(cache_key),
                    decreases atlases@.len() - j,
                {
                    if atlases[j].has_glyph(cache_key) {
                        assert(self.atlases_at(p as int)[j as int] == atlases@[j as int].glyphs@);
                        assert(self.atlases_at(p as int)[j as int].contains(cache_key));
                        assert(self.key_seq()[p as int] == *font_key);
                        return true;
                    }
                    j = j + 1;
                }
                proof {
                    assert forall|i: int, k: int|
                        0 <= i < self.key_seq().len() && self.key_seq()[i] == *font_key && 0 <= k
                            < self.atlases_at(i).len() implies !#[trigger] self.atlases_at(i)[k].contains(cache_key) by {
                        assert(i == p);
                    }
                }
                false
            },
        }
    }
}

/// Settings of the text plugin.
pub struct TextSettings {
    /// Maximum number of font atlases supported in a [`FontAtlasSet`]; never zero.
    pub max_font_atlases: usize,
    /// Allows font size to be set dynamically exceeding the amount set in `max_font_atlases`.
    pub allow_dynamic_font_size: bool,
}

impl Default for TextSettings {
    fn default() -> (r: Self)
        ensures
            r.max_font_atlases == 16,
            !r.allow_dynamic_font_size,
    {
        TextSettings { max_font_atlases: 16, allow_dynamic_font_size: false }
    }
}

/// The direction of the y axis that glyphs are positioned along.
#[derive(PartialEq, Eq, Structural, Clone, Copy, Debug)]
pub enum YAxisOrientation {
    TopToBottom,
    BottomToTop,
}

/// Maximum number of fonts whose atlases are kept while no text uses them.
pub struct MaxUnusedFontAtlasSets(pub usize);

impl Default for MaxUnusedFontAtlasSets {
    fn default() -> (r: Self)
        ensures
            r.0 == 20,
    {
        MaxUnusedFontAtlasSets(20)
    }
}

/// The fonts that one text entity uses, in a small vector.
#[verifier::external_body]
pub struct ComputedTextFonts(pub smallvec::SmallVec<[FontAtlasKey; 1]>);

/// The fonts that a [`ComputedTextFonts`] holds, in order.
pub uninterp spec fn text_fonts(c: ComputedTextFonts) -> Seq<FontAtlasKey>;

/// Calls `SmallVec::as_slice`: the elements held, in order.
#[verifier::external_body]
fn small_vec_as_slice(c: &ComputedTextFonts) -> (r: &[FontAtlasKey])
    ensures
        r@ == text_fonts(*c),
{
    c.0.as_slice()
}

/// The keys that any of `query` uses.
pub open spec fn used_keys(query: Seq<ComputedTextFonts>) -> Set<FontAtlasKey> {
    Set::new(|k: FontAtlasKey| exists|i: int, j: int| 0 <= i < query.len() && 0 <= j < text_fonts(query[i]).len() && #[trigger] text_fonts(query[i])[j] == k)
}

/// The least recently used fonts after an update: the former list without the fonts in use,
/// followed by the fonts that were in use before and are no longer.
pub open spec fn lru_after(lru: Seq<FontAtlasKey>, previous: Seq<FontAtlasKey>, active: Set<FontAtlasKey>) -> Seq<FontAtlasKey> {
    lru.filter(|k: FontAtlasKey| !active.contains(k)) + previous.filter(|k: FontAtlasKey| !active.contains(k))
}

/// How many fonts an update frees: the excess of stored fonts over the maximum, but no more
/// than the unused fonts listed.
pub open spec fn number_to_free(stored: nat, max_fonts: nat, unused: nat) -> nat {
    let excess: nat = if stored > max_fonts { (stored - max_fonts) as nat } else { 0 };
    if excess < unused { excess } else { unused }
}

/// Whether `v` holds `key`.
fn vec_contains(v: &Vec<FontAtlasKey>, key: &FontAtlasKey) -> (r: bool)
    ensures
        r == v@.contains(*key),
{
    let mut i: usize = 0;
    while i < v.len()
        invariant
            0 <= i <= v@.len(),
            forall|j: int| 0 <= j < i ==> v@[j] != *key,
        decreases v@.len() - i,
    {
        if v[i] == *key {
            return true;
        }
        i = i + 1;
    }
    false
}

/// Adds `key` to the set `v` of distinct keys.
fn set_insert(v: &mut Vec<FontAtlasKey>, key: FontAtlasKey)
    requires
        distinct_keys(old(v)@),
    ensures
        distinct_keys(final(v)@),
        final(v)@.to_set() == old(v)@.to_set().insert(key),
{
    if !vec_contains(v, &key) {
        v.push(key);
        proof {
            Seq::<FontAtlasKey>::lemma_to_set_insert_commutes(old(v)@, key);
            assert(final(v)@ =~= old(v)@ + seq![key]);
        }
    } else {
        assert(old(v)@.to_set().insert(key) =~= old(v)@.to_set());
    }
}

/// The keys of `v` that are not in the set `active`, in order.
fn without_active(v: &Vec<FontAtlasKey>, active: &Vec<FontAtlasKey>) -> (r: Vec<FontAtlasKey>)
    ensures
        r@ == v@.filter(|k: FontAtlasKey| !active@.to_set().contains(k)),
{
    let ghost pred = |k: FontAtlasKey| !active@.to_set().contains(k);
    let mut out: Vec<FontAtlasKey> = Vec::new();
    let mut i: usize = 0;
    while i < v.len()
        invariant
            0 <= i <= v@.len(),
            out@ == v@.take(i as int).filter(pred),
            pred == (|k: FontAtlasKey| !active@.to_set().contains(k)),
        decreases v@.len() - i,
    {
        let k = v[i];
        proof {
            assert(v@.take(i as int + 1).drop_last() =~= v@.take(i as int));
            reveal_with_fuel(Seq::filter, 1);
        }
        if !vec_contains(active, &k) {
            out.push(k);
        }
        proof {
            assert(active@.contains(k) == active@.to_set().contains(k));
        }
        i = i + 1;
    }
    assert(v@.take(v@.len() as int) =~= v@);
    out
}

/// Filtering by a predicate that holds everywhere keeps the sequence as it is.
proof fn lemma_filter_true(s: Seq<FontAtlasKey>, p: spec_fn(FontAtlasKey) -> bool)
    requires
        forall|k: FontAtlasKey| #[trigger] p(k),
    ensures
        s.filter(p) == s,
    decreases s.len(),
{
    reveal_with_fuel(Seq::filter, 1);
    if s.len() > 0 {
        lemma_filter_true(s.drop_last(), p);
        assert(s.drop_last().push(s.last()) =~= s);
    } else {
        assert(s.filter(p) =~= s);
    }
}

/// Filtering twice is filtering by both predicates.
proof fn lemma_filter_filter(s: Seq<FontAtlasKey>, p: spec_fn(FontAtlasKey) -> bool, q: spec_fn(FontAtlasKey) -> bool)
    ensures
        s.filter(p).filter(q) == s.filter(|k: FontAtlasKey| p(k) && q(k)),
    decreases s.len(),
{
    reveal_with_fuel(Seq::filter, 1);
    if s.len() > 0 {
        lemma_filter_filter(s.drop_last(), p, q);
        let pq = |k: FontAtlasKey| p(k) && q(k);
        if p(s.last()) {
            assert(s.filter(p).drop_last() =~= s.drop_last().filter(p));
        }
    } else {
        assert(s.filter(p).filter(q) =~= s.filter(|k: FontAtlasKey| p(k) && q(k)));
    }
}

/// An event about a font asset, by the asset's id.
#[derive(PartialEq, Eq, Structural, Clone, Copy, Debug)]
pub enum FontAssetEvent {
    Added(u64),
    Modified(u64),
    Removed(u64),
    Unused(u64),
    LoadedWithDependencies(u64),
}

/// Some event of `events` says that the font asset `id` was removed.
pub open spec fn removed_in(events: Seq<FontAssetEvent>, id: u64) -> bool {
    exists|i: int| 0 <= i < events.len() && events[i] == FontAssetEvent::Removed(id)
}

/// Frees the atlases of the fonts whose asset an event says was removed.
pub fn free_unused_font_atlases_system(font_atlas_set: &mut FontAtlasSet, events: &[FontAssetEvent])
    requires
        old(font_atlas_set).wf(),
    ensures
        final(font_atlas_set).wf(),
        final(font_atlas_set).key_seq() == old(font_atlas_set).key_seq().filter(
            |k: FontAtlasKey| !removed_in(events@, k.0),
        ),
        keeps_atlases(*old(font_atlas_set), *final(font_atlas_set)),
{
    let ghost start = font_atlas_set.key_seq();
    let ghost start_set = *font_atlas_set;
    proof {
        lemma_keeps_atlases_refl(start_set);
    }
    let mut i: usize = 0;
    proof {
        let p0 = |k: FontAtlasKey| !removed_in(events@.take(0), k.0);
        lemma_filter_true(start, p0);
    }
    while i < events.len()
        invariant
            i <= events@.len(),
            font_atlas_set.wf(),
            font_atlas_set.key_seq() == start.filter(|k: FontAtlasKey| !removed_in(events@.take(i as int), k.0)),
            start == start_set.key_seq(),
            keeps_atlases(start_set, *font_atlas_set),
        decreases events@.len() - i,
    {
        let ghost before = font_atlas_set.key_seq();
        let ghost before_set = *font_atlas_set;
        let ghost p = |k: FontAtlasKey| !removed_in(events@.take(i as int), k.0);
        let ghost p2 = |k: FontAtlasKey| !removed_in(events@.take(i as int + 1), k.0);
        let event = events[i];
        match event {
            FontAssetEvent::Removed(id) => {
                font_atlas_set.retain_other_assets(id);
                proof {
                    assert forall|a: int| 0 <= a < font_atlas_set.key_seq().len()
                        implies before_set.key_seq().contains(#[trigger] font_atlas_set.key_seq()[a]) by {
                        before_set.key_seq().lemma_filter_contains_rev(|k: FontAtlasKey| k.0 != id, font_atlas_set.key_seq()[a]);
                        assert(font_atlas_set.key_seq().contains(font_atlas_set.key_seq()[a]));
                    }
                    lemma_keeps_atlases_trans(start_set, before_set, *font_atlas_set);
                    let q = |k: FontAtlasKey| k.0 != id;
                    lemma_filter_filter(start, p, q);
                    assert forall|k: FontAtlasKey| #[trigger] p2(k) == (p(k) && q(k)) by {
                        let t = events@.take(i as int + 1);
                        if removed_in(t, k.0) {
                            let j = choose|j: int| 0 <= j < t.len() && t[j] == FontAssetEvent::Removed(k.0);
                            if j < i {
                                assert(events@.take(i as int)[j] == t[j]);
                            }
                        }
                        if removed_in(events@.take(i as int), k.0) {
                            let j = choose|j: int| 0 <= j < i && events@.take(i as int)[j] == FontAssetEvent::Removed(k.0);
                            assert(t[j] == events@.take(i as int)[j]);
                        }
                        if k.0 == id {
                            assert(t[i as int] == FontAssetEvent::Removed(k.0));
                        }
                    }
                    assert(p2 =~= (|k: FontAtlasKey| p(k) && q(k)));
                }
            },
            _ => {
                proof {
                    assert forall|k: FontAtlasKey| #[trigger] p2(k) == p(k) by {
                        let t = events@.take(i as int + 1);
                        if removed_in(t, k.0) {
                            let j = choose|j: int| 0 <= j < t.len() && t[j] == FontAssetEvent::Removed(k.0);
                            if j < i {
                                assert(events@.take(i as int)[j] == t[j]);
                            }
                        }
                        if removed_in(events@.take(i as int), k.0) {
                            let j = choose|j: int| 0 <= j < i && events@.take(i as int)[j] == FontAssetEvent::Removed(k.0);
                            assert(t[j] == events@.take(i as int)[j]);
                        }
                    }
                    assert(p2 =~= p);
                }
            },
        }
        i = i + 1;
    }
    proof {
        assert(events@.take(events@.len() as int) =~= events@);
    }
}

/// Frees the atlases of unused fonts while more fonts are stored than
/// [`MaxUnusedFontAtlasSets`] allows, least recently used first. Fonts in use are never freed,
/// even where more fonts are in use than the maximum.
///
/// `least_recently_used` lists the unused fonts from least to most recently used;
/// `previous_active_fonts` is a set of fonts (no key twice), the fonts in use in the previous
/// update; `active_fonts` is a scratch set, emptied before it collects the fonts in use.
pub fn free_unused_font_atlases_computed_system(
    least_recently_used: &mut Vec<FontAtlasKey>,
    previous_active_fonts: &mut Vec<FontAtlasKey>,
    active_fonts: &mut Vec<FontAtlasKey>,
    font_atlas_set: &mut FontAtlasSet,
    max_fonts: &MaxUnusedFontAtlasSets,
    active_fonts_query: &[ComputedTextFonts],
)
    requires
        old(font_atlas_set).wf(),
    ensures
        ({
            let active = used_keys(active_fonts_query@);
            let lru = lru_after(old(least_recently_used)@, old(previous_active_fonts)@, active);
            let n = number_to_free(old(font_atlas_set).key_seq().len(), max_fonts.0 as nat, lru.len());
            &&& final(least_recently_used)@ == lru.skip(n as int)
            &&& final(font_atlas_set).key_seq() == old(font_atlas_set).key_seq().filter(|k: FontAtlasKey| !lru.take(n as int).contains(k))
            &&& final(font_atlas_set).wf()
            &&& keeps_atlases(*old(font_atlas_set), *final(font_atlas_set))
            &&& final(previous_active_fonts)@.to_set() == active
            &&& distinct_keys(final(previous_active_fonts)@)
            &&& final(active_fonts)@.len() == 0
        }),
{
    let ghost query = active_fonts_query@;
    active_fonts.clear();
    let ghost init = active_fonts@;
    // collect keys for all fonts currently in use by a text entity
    let mut i: usize = 0;
    while i < active_fonts_query.len()
        invariant
            0 <= i <= query.len(),
            query == active_fonts_query@,
            distinct_keys(active_fonts@),
            active_fonts@.to_set() == init.to_set().union(
                used_keys(query.take(i as int)),
            ),
        decreases query.len() - i,
    {
        let keys = small_vec_as_slice(&active_fonts_query[i]);
        let mut j: usize = 0;
        while j < keys.len()
            invariant
                0 <= i < query.len(),
                query == active_fonts_query@,
                keys@ == text_fonts(query[i as int]),
                0 <= j <= keys@.len(),
                distinct_keys(active_fonts@),
                active_fonts@.to_set() == init.to_set().union(
                    used_keys(query.take(i as int))).union(keys@.take(j as int).to_set()),
            decreases keys@.len() - j,
        {
            set_insert(active_fonts, keys[j]);
            proof {
                assert(keys@.take(j as int + 1) =~= keys@.take(j as int).push(keys@[j as int]));
                Seq::<FontAtlasKey>::lemma_to_set_insert_commutes(keys@.take(j as int), keys@[j as int]);
                assert(keys@.take(j as int + 1) =~= keys@.take(j as int) + seq![keys@[j as int]]);
                assert(active_fonts@.to_set() =~= init.to_set().union(
                    used_keys(query.take(i as int))).union(keys@.take(j as int + 1).to_set()));
            }
            j = j + 1;
        }
        proof {
            assert(keys@.take(keys@.len() as int) =~= keys@);
            let before = used_keys(query.take(i as int));
            let after = used_keys(query.take(i as int + 1));
            assert forall|k: FontAtlasKey| after.contains(k) <==> before.union(keys@.to_set()).contains(k) by {
                if after.contains(k) {
                    let (a, b) = choose|a: int, b: int| 0 <= a < query.take(i as int + 1).len() && 0 <= b < text_fonts(query.take(i as int + 1)[a]).len() && #[trigger] text_fonts(query.take(i as int + 1)[a])[b] == k;
                    if a < i {
                        assert(text_fonts(query.take(i as int)[a])[b] == k);
                    } else {
                        assert(keys@.contains(k));
                    }
                }
                if before.contains(k) {
                    let (a, b) = choose|a: int, b: int| 0 <= a < query.take(i as int).len() && 0 <= b < text_fonts(query.take(i as int)[a]).len() && #[trigger] text_fonts(query.take(i as int)[a])[b] == k;
                    assert(text_fonts(query.take(i as int + 1)[a])[b] == k);
                }
                if keys@.to_set().contains(k) {
                    let b = choose|b: int| 0 <= b < keys@.len() && keys@[b] == k;
                    assert(text_fonts(query.take(i as int + 1)[i as int])[b] == k);
                }
            }
            assert(after =~= before.union(keys@.to_set()));
            assert(active_fonts@.to_set() =~= init.to_set().union(after));
        }
        i = i + 1;
    }
    proof {
        assert(query.take(query.len() as int) =~= query);
        assert(init.to_set() =~= Set::<FontAtlasKey>::empty());
        assert(active_fonts@.to_set() =~= used_keys(query));
    }
    let ghost active = active_fonts@.to_set();

    // remove any keys for fonts in use from the least recently used list,
    // then add the fonts that were in use before and are no longer
    let mut lru = without_active(least_recently_used, active_fonts);
    let newly_unused = without_active(previous_active_fonts, active_fonts);
    let mut k: usize = 0;
    let ghost lru_kept = lru@;
    while k < newly_unused.len()
        invariant
            0 <= k <= newly_unused@.len(),
            lru@ == lru_kept + newly_unused@.take(k as int),
        decreases newly_unused@.len() - k,
    {
        lru.push(newly_unused[k]);
        assert(newly_unused@.take(k as int + 1) =~= newly_unused@.take(k as int).push(newly_unused@[k as int]));
        k = k + 1;
    }
    assert(newly_unused@.take(newly_unused@.len() as int) =~= newly_unused@);
    let ghost full = lru@;
    assert(full == lru_after(old(least_recently_used)@, old(previous_active_fonts)@, active));

    // free fonts from the least recently used list until the total is no more than
    // max_fonts or the list is empty
    let stored = font_atlas_set.len();
    let excess = stored.saturating_sub(max_fonts.0);
    let n = if excess < lru.len() { excess } else { lru.len() };
    let mut m: usize = 0;
    proof {
        lemma_filter_true(old(font_atlas_set).key_seq(), |key: FontAtlasKey| !full.take(0).contains(key));
        lemma_keeps_atlases_refl(*old(font_atlas_set));
    }
    while m < n
        invariant
            0 <= m <= n <= full.len(),
            lru@ == full,
            font_atlas_set.wf(),
            keeps_atlases(*old(font_atlas_set), *font_atlas_set),
            font_atlas_set.key_seq() == old(font_atlas_set).key_seq().filter(|key: FontAtlasKey| !full.take(m as int).contains(key)),
        decreases n - m,
    {
        let key = lru[m];
        let ghost before_set = *font_atlas_set;
        font_atlas_set.remove(&key);
        proof {
            assert forall|a: int| 0 <= a < font_atlas_set.key_seq().len()
                implies before_set.key_seq().contains(#[trigger] font_atlas_set.key_seq()[a]) by {
                before_set.key_seq().lemma_filter_contains_rev(|k: FontAtlasKey| k != key, font_atlas_set.key_seq()[a]);
                assert(font_atlas_set.key_seq().contains(font_atlas_set.key_seq()[a]));
            }
            lemma_keeps_atlases_trans(*old(font_atlas_set), before_set, *font_atlas_set);
            let p = |k2: FontAtlasKey| !full.take(m as int).contains(k2);
            let q = |k2: FontAtlasKey| k2 != key;
            lemma_filter_filter(old(font_atlas_set).key_seq(), p, q);
            assert(full.take(m as int + 1) =~= full.take(m as int).push(key));
            assert forall|k2: FontAtlasKey| (p(k2) && q(k2)) == !#[trigger] full.take(m as int + 1).contains(k2) by {
                broadcast use vstd::seq_lib::lemma_seq_contains_after_push;
            }
            assert((|k2: FontAtlasKey| p(k2) && q(k2)) =~= (|k2: FontAtlasKey| !full.take(m as int + 1).contains(k2)));
        }
        m = m + 1;
    }
    let mut rest: Vec<FontAtlasKey> = Vec::new();
    let mut r: usize = n;
    while r < lru.len()
        invariant
            n <= r <= lru@.len(),
            lru@ == full,
            rest@ == full.subrange(n as int, r as int),
        decreases lru@.len() - r,
    {
        rest.push(lru[r]);
        assert(full.subrange(n as int, r as int + 1) =~= full.subrange(n as int, r as int).push(full[r as int]));
        r = r + 1;
    }
    *least_recently_used = rest;

    previous_active_fonts.clear();
    core::mem::swap(previous_active_fonts, active_fonts);
}

/// Fonts in use are never freed: a font that an update finds in use and stored is still
/// stored after it, whatever the maximum.
pub proof fn lemma_fonts_in_use_are_kept(
    stored: Seq<FontAtlasKey>,
    lru: Seq<FontAtlasKey>,
    previous: Seq<FontAtlasKey>,
    active: Set<FontAtlasKey>,
    n: nat,
    key: FontAtlasKey,
)
    requires
        active.contains(key),
        stored.contains(key),
        n <= lru_after(lru, previous, active).len(),
    ensures
        stored.filter(|k: FontAtlasKey| !lru_after(lru, previous, active).take(n as int).contains(k)).contains(key),
        !lru_after(lru, previous, active).contains(key),
{
    let full = lru_after(lru, previous, active);
    let p1 = |k: FontAtlasKey| !active.contains(k);
    if full.contains(key) {
        let i = choose|i: int| 0 <= i < full.len() && full[i] == key;
        let a = lru.filter(p1);
        if i < a.len() {
            lru.lemma_filter_pred(p1, i);
        } else {
            assert(full[i] == previous.filter(p1)[i - a.len()]);
            previous.lemma_filter_pred(p1, i - a.len());
        }
    }
    if full.take(n as int).contains(key) {
        let i = choose|i: int| 0 <= i < full.take(n as int).len() && full.take(n as int)[i] == key;
        assert(full[i] == key);
    }
    let i = choose|i: int| 0 <= i < stored.len() && stored[i] == key;
    stored.lemma_filter_contains(|k: FontAtlasKey| !full.take(n as int).contains(k), i);
}

/// No font in use is listed as unused after an update.
pub proof fn lemma_lru_holds_no_font_in_use(
    lru: Seq<FontAtlasKey>,
    previous: Seq<FontAtlasKey>,
    active: Set<FontAtlasKey>,
    n: nat,
)
    requires
        n <= lru_after(lru, previous, active).len(),
    ensures
        forall|i: int|
            0 <= i < lru_after(lru, previous, active).skip(n as int).len() ==> !active.contains(
                #[trigger] lru_after(lru, previous, active).skip(n as int)[i],
            ),
{
    let full = lru_after(lru, previous, active);
    let p1 = |k: FontAtlasKey| !active.contains(k);
    let a = lru.filter(p1);
    assert forall|i: int| 0 <= i < full.skip(n as int).len() implies !active.contains(#[trigger] full.skip(n as int)[i]) by {
        let j = i + n;
        assert(full.skip(n as int)[i] == full[j]);
        if j < a.len() {
            lru.lemma_filter_pred(p1, j);
        } else {
            assert(full[j] == previous.filter(p1)[j - a.len()]);
            previous.lemma_filter_pred(p1, j - a.len());
        }
    }
}

/// The unused list after an update holds exactly the fonts not in use that were listed as
/// unused before or were in use in the previous update.
pub proof fn lemma_unused_list_members(
    lru: Seq<FontAtlasKey>,
    previous: Seq<FontAtlasKey>,
    active: Set<FontAtlasKey>,
    key: FontAtlasKey,
)
    ensures
        lru_after(lru, previous, active).contains(key) <==> (lru.contains(key) || previous.contains(key)) && !active.contains(key),
{
    let full = lru_after(lru, previous, active);
    let p1 = |k: FontAtlasKey| !active.contains(k);
    let a = lru.filter(p1);
    let b = previous.filter(p1);
    assert(full == a + b);
    if full.contains(key) {
        let i = choose|i: int| 0 <= i < full.len() && full[i] == key;
        if i < a.len() {
            assert(a.contains(key));
            lru.lemma_filter_contains_rev(p1, key);
            lru.lemma_filter_pred(p1, i);
        } else {
            assert(b[i - a.len()] == key);
            assert(b.contains(key));
            previous.lemma_filter_contains_rev(p1, key);
            previous.lemma_filter_pred(p1, i - a.len());
        }
    }
    if !active.contains(key) {
        if lru.contains(key) {
            let i = choose|i: int| 0 <= i < lru.len() && lru[i] == key;
            lru.lemma_filter_contains(p1, i);
            let j = choose|j: int| 0 <= j < a.len() && a[j] == key;
            assert(full[j] == key);
        } else if previous.contains(key) {
            let i = choose|i: int| 0 <= i < previous.len() && previous[i] == key;
            previous.lemma_filter_contains(p1, i);
            let j = choose|j: int| 0 <= j < b.len() && b[j] == key;
            assert(full[a.len() + j] == key);
        }
    }
}

/// Least recently used first: a font that was already unused before an update and stays
/// unused stands, in the unused list after the update, before every font that went out of use
/// in that update; so where the update frees the font that went out of use, it frees the font
/// that was unused before too.
pub proof fn lemma_unused_longer_goes_first(
    lru: Seq<FontAtlasKey>,
    previous: Seq<FontAtlasKey>,
    active: Set<FontAtlasKey>,
    n: nat,
    older: FontAtlasKey,
    newer: FontAtlasKey,
)
    requires
        lru.contains(older),
        !previous.contains(older),
        !active.contains(older),
        previous.contains(newer),
        !lru.contains(newer),
        !active.contains(newer),
        n <= lru_after(lru, previous, active).len(),
    ensures
        exists|i: int, j: int| 0 <= i < j < lru_after(lru, previous, active).len()
            && lru_after(lru, previous, active)[i] == older && lru_after(lru, previous, active)[j] == newer,
        forall|i: int, j: int| 0 <= i < lru_after(lru, previous, active).len() && 0 <= j < lru_after(lru, previous, active).len()
            && #[trigger] lru_after(lru, previous, active)[i] == older && #[trigger] lru_after(lru, previous, active)[j] == newer
            ==> i < j,
        lru_after(lru, previous, active).take(n as int).contains(newer)
            ==> lru_after(lru, previous, active).take(n as int).contains(older),
{
    let full = lru_after(lru, previous, active);
    let p1 = |k: FontAtlasKey| !active.contains(k);
    let a = lru.filter(p1);
    let b = previous.filter(p1);
    assert(full == a + b);
    let io = choose|i: int| 0 <= i < lru.len() && lru[i] == older;
    lru.lemma_filter_contains(p1, io);
    let jn = choose|j: int| 0 <= j < previous.len() && previous[j] == newer;
    previous.lemma_filter_contains(p1, jn);
    assert(!b.contains(older)) by {
        if b.contains(older) {
            previous.lemma_filter_contains_rev(p1, older);
        }
    }
    assert(!a.contains(newer)) by {
        if a.contains(newer) {
            lru.lemma_filter_contains_rev(p1, newer);
        }
    }
    assert forall|i: int| 0 <= i < full.len() && #[trigger] full[i] == older implies i < a.len() by {
        if i >= a.len() {
            assert(b[i - a.len()] == older);
        }
    }
    assert forall|j: int| 0 <= j < full.len() && #[trigger] full[j] == newer implies j >= a.len() by {
        if j < a.len() {
            assert(a[j] == newer);
        }
    }
    let i0 = choose|i: int| 0 <= i < a.len() && a[i] == older;
    let j0 = choose|j: int| 0 <= j < b.len() && b[j] == newer;
    assert(full[i0] == older);
    assert(full[a.len() + j0] == newer);
    if full.take(n as int).contains(newer) {
        let j = choose|j: int| 0 <= j < full.take(n as int).len() && full.take(n as int)[j] == newer;
        assert(full[j] == newer);
        assert(full.take(n as int)[i0] == older);
    }
}

/// Filtering out `r`, whose keys are distinct and all occur in the distinct sequence `s`,
/// leaves `s.len() - r.len()` keys.
proof fn lemma_filter_out_len(s: Seq<FontAtlasKey>, r: Seq<FontAtlasKey>)
    requires
        distinct_keys(s),
        distinct_keys(r),
        forall|i: int| 0 <= i < r.len() ==> s.contains(#[trigger] r[i]),
    ensures
        s.filter(|k: FontAtlasKey| !r.contains(k)).len() == s.len() - r.len(),
        distinct_keys(s.filter(|k: FontAtlasKey| !r.contains(k))),
    decreases r.len(),
{
    if r.len() == 0 {
        lemma_filter_true(s, |k: FontAtlasKey| !r.contains(k));
    } else {
        let r0 = r.drop_last();
        let x = r.last();
        lemma_filter_out_len(s, r0);
        let p = |k: FontAtlasKey| !r0.contains(k);
        let q = |k: FontAtlasKey| k != x;
        let f = s.filter(p);
        lemma_filter_filter(s, p, q);
        assert forall|k: FontAtlasKey| (p(k) && q(k)) == !#[trigger] r.contains(k) by {
            assert(r == r0.push(x));
            broadcast use vstd::seq_lib::lemma_seq_contains_after_push;
        }
        assert((|k: FontAtlasKey| p(k) && q(k)) =~= (|k: FontAtlasKey| !r.contains(k)));
        assert(!r0.contains(x)) by {
            if r0.contains(x) {
                let j = choose|j: int| 0 <= j < r0.len() && r0[j] == x;
                assert(r[j] == r[r.len() - 1]);
            }
        }
        assert(s.contains(r[r.len() - 1]));
        let i = choose|i: int| 0 <= i < s.len() && s[i] == x;
        s.lemma_filter_contains(p, i);
        let fi = choose|fi: int| 0 <= fi < f.len() && f[fi] == x;
        lemma_filter_drop_unique(f, fi, x);
    }
}

/// After an update the stored fonts number the former count minus the fonts freed, and, where
/// the unused list holds distinct stored fonts, no more than the maximum remain unless the
/// unused list ran empty.
pub proof fn lemma_eviction_bound(
    stored: Seq<FontAtlasKey>,
    lru: Seq<FontAtlasKey>,
    previous: Seq<FontAtlasKey>,
    active: Set<FontAtlasKey>,
    max_fonts: nat,
)
    requires
        distinct_keys(stored),
        distinct_keys(lru_after(lru, previous, active)),
        forall|i: int| 0 <= i < lru_after(lru, previous, active).len() ==> stored.contains(#[trigger] lru_after(lru, previous, active)[i]),
    ensures
        ({
            let full = lru_after(lru, previous, active);
            let n = number_to_free(stored.len(), max_fonts, full.len());
            let after = stored.filter(|k: FontAtlasKey| !full.take(n as int).contains(k));
            &&& after.len() == stored.len() - n
            &&& after.len() <= max_fonts || full.skip(n as int).len() == 0
        }),
{
    let full = lru_after(lru, previous, active);
    let n = number_to_free(stored.len(), max_fonts, full.len());
    let t = full.take(n as int);
    assert forall|i: int| 0 <= i < t.len() implies stored.contains(#[trigger] t[i]) by {
        assert(t[i] == full[i]);
    }
    lemma_filter_out_len(stored, t);
}

/// An update frees only the excess: where the stored fonts are within the maximum nothing is
/// freed, and where any font is freed at least the maximum remain.
pub proof fn lemma_frees_only_the_excess(
    stored: Seq<FontAtlasKey>,
    lru: Seq<FontAtlasKey>,
    previous: Seq<FontAtlasKey>,
    active: Set<FontAtlasKey>,
    max_fonts: nat,
)
    requires
        distinct_keys(stored),
        distinct_keys(lru_after(lru, previous, active)),
        forall|i: int| 0 <= i < lru_after(lru, previous, active).len() ==> stored.contains(#[trigger] lru_after(lru, previous, active)[i]),
    ensures
        ({
            let full = lru_after(lru, previous, active);
            let n = number_to_free(stored.len(), max_fonts, full.len());
            let after = stored.filter(|k: FontAtlasKey| !full.take(n as int).contains(k));
            &&& stored.len() <= max_fonts ==> after == stored
            &&& n > 0 ==> after.len() >= max_fonts
            &&& n <= full.len()
        }),
{
    let full = lru_after(lru, previous, active);
    let n = number_to_free(stored.len(), max_fonts, full.len());
    lemma_eviction_bound(stored, lru, previous, active, max_fonts);
    if stored.len() <= max_fonts {
        assert(full.take(n as int) =~= Seq::<FontAtlasKey>::empty());
        lemma_filter_true(stored, |k: FontAtlasKey| !full.take(n as int).contains(k));
    }
}

/// Removing the one occurrence of `key` from a sequence without duplicates is what filtering
/// it out does.
proof fn lemma_filter_drop_unique(s: Seq<FontAtlasKey>, i: int, key: FontAtlasKey)
    requires
        distinct_keys(s),
        0 <= i < s.len(),
        s[i] == key,
    ensures
        s.filter(|k: FontAtlasKey| k != key) == s.remove(i),
        distinct_keys(s.remove(i)),
    decreases s.len(),
{
    let pred = |k: FontAtlasKey| k != key;
    reveal_with_fuel(Seq::filter, 1);
    if i == s.len() - 1 {
        lemma_filter_keeps_all(s.drop_last(), key);
        assert(s.remove(i) =~= s.drop_last());
    } else {
        lemma_filter_drop_unique(s.drop_last(), i, key);
        assert(s.remove(i) =~= s.drop_last().remove(i).push(s.last()));
    }
}

/// Filtering out a key that does not occur keeps the sequence as it is.
proof fn lemma_filter_keeps_all(s: Seq<FontAtlasKey>, key: FontAtlasKey)
    requires
        forall|j: int| 0 <= j < s.len() ==> s[j] != key,
    ensures
        s.filter(|k: FontAtlasKey| k != key) == s,
    decreases s.len(),
{
    reveal_with_fuel(Seq::filter, 1);
    if s.len() > 0 {
        lemma_filter_keeps_all(s.drop_last(), key);
        assert(s.drop_last().push(s.last()) =~= s);
    } else {
        assert(s.filter(|k: FontAtlasKey| k != key) =~= s);
    }
}

/// A filtered sequence without duplicates has none either.
proof fn lemma_filter_distinct(s: Seq<FontAtlasKey>, pred: spec_fn(FontAtlasKey) -> bool)
    requires
        distinct_keys(s),
    ensures
        distinct_keys(s.filter(pred)),
    decreases s.len(),
{
    reveal_with_fuel(Seq::filter, 1);
    if s.len() > 0 {
        lemma_filter_distinct(s.drop_last(), pred);
        let f = s.drop_last().filter(pred);
        assert forall|j: int| 0 <= j < f.len() implies f[j] != s.last() by {
            assert(f.contains(f[j]));
            s.drop_last().lemma_filter_contains_rev(pred, f[j]);
            let k = choose|k: int| 0 <= k < s.drop_last().len() && s.drop_last()[k] == f[j];
            assert(s[k] == f[j]);
        }
    }
}

} // verus!
