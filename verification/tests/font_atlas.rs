use smallvec::SmallVec;
use bevy_ui::font_atlas::{
    free_unused_font_atlases_computed_system, free_unused_font_atlases_system, ComputedTextFonts,
    FontAssetEvent, FontAtlas, FontAtlasKey, FontAtlasSet, FontSmoothing, MaxUnusedFontAtlasSets,
};

fn fonts(keys: &[FontAtlasKey]) -> ComputedTextFonts {
    ComputedTextFonts(SmallVec::from_slice(keys))
}

/// The state that the eviction system keeps from one update to the next.
struct Frames {
    least_recently_used: Vec<FontAtlasKey>,
    previous_active_fonts: Vec<FontAtlasKey>,
    active_fonts: Vec<FontAtlasKey>,
}

impl Frames {
    fn new() -> Self {
        Frames { least_recently_used: Vec::new(), previous_active_fonts: Vec::new(), active_fonts: Vec::new() }
    }

    fn update(&mut self, set: &mut FontAtlasSet, max: &MaxUnusedFontAtlasSets, texts: &[ComputedTextFonts]) {
        free_unused_font_atlases_computed_system(
            &mut self.least_recently_used,
            &mut self.previous_active_fonts,
            &mut self.active_fonts,
            set,
            max,
            texts,
        );
    }
}

#[test]
fn text_free_unused_font_atlases_computed_system() {
    let mut max = MaxUnusedFontAtlasSets::default();
    let mut font_atlases = FontAtlasSet::new();
    let mut frames = Frames::new();

    let font_atlas_key_1 = FontAtlasKey(0, 10, FontSmoothing::AntiAliased);
    let font_atlas_key_2 = FontAtlasKey(0, 10, FontSmoothing::NoSmoothing);

    font_atlases.insert(font_atlas_key_1, vec![]);
    font_atlases.insert(font_atlas_key_2, vec![]);

    let e = fonts(&[font_atlas_key_1]);
    let f = fonts(&[font_atlas_key_2]);

    frames.update(&mut font_atlases, &max, &[e, f]);
    assert_eq!(font_atlases.len(), 2);

    // `f` is despawned
    let e = fonts(&[font_atlas_key_1]);
    frames.update(&mut font_atlases, &max, &[e]);
    assert_eq!(font_atlases.len(), 2);

    max.0 = 1;
    let e = fonts(&[font_atlas_key_1]);
    frames.update(&mut font_atlases, &max, &[e]);
    assert_eq!(font_atlases.len(), 1);
    assert!(font_atlases.contains_key(&font_atlas_key_1));
    assert!(!font_atlases.contains_key(&font_atlas_key_2));

    // `e` is despawned
    max.0 = 0;
    frames.update(&mut font_atlases, &max, &[]);
    assert_eq!(font_atlases.len(), 0);
}

#[test]
fn max_unused_font_atlas_sets_default_is_twenty() {
    assert_eq!(MaxUnusedFontAtlasSets::default().0, 20);
}

#[test]
fn fonts_in_use_are_kept_even_over_the_maximum() {
    let max = MaxUnusedFontAtlasSets(0);
    let mut set = FontAtlasSet::new();
    let mut frames = Frames::new();
    let a = FontAtlasKey(1, 12, FontSmoothing::AntiAliased);
    let b = FontAtlasKey(2, 12, FontSmoothing::AntiAliased);
    set.insert(a, vec![]);
    set.insert(b, vec![]);
    let texts = [fonts(&[a, b])];
    frames.update(&mut set, &max, &texts);
    frames.update(&mut set, &max, &texts);
    assert_eq!(set.len(), 2);
    assert!(frames.least_recently_used.is_empty());
}

#[test]
fn least_recently_used_font_is_freed_first() {
    let max = MaxUnusedFontAtlasSets(2);
    let mut set = FontAtlasSet::new();
    let mut frames = Frames::new();
    let a = FontAtlasKey(1, 8, FontSmoothing::AntiAliased);
    let b = FontAtlasKey(2, 8, FontSmoothing::AntiAliased);
    let c = FontAtlasKey(3, 8, FontSmoothing::AntiAliased);
    set.insert(a, vec![]);
    set.insert(b, vec![]);
    set.insert(c, vec![]);
    frames.update(&mut set, &max, &[fonts(&[a, b, c])]);
    // `a` goes out of use first, then `b`
    frames.update(&mut set, &max, &[fonts(&[b, c])]);
    assert_eq!(set.len(), 2);
    assert!(!set.contains_key(&a));
    frames.update(&mut set, &max, &[fonts(&[c])]);
    assert_eq!(set.len(), 2);
    assert!(set.contains_key(&b));
    assert!(set.contains_key(&c));
    assert_eq!(frames.least_recently_used, vec![b]);
    // a font used again leaves the least recently used list
    frames.update(&mut set, &max, &[fonts(&[b, c])]);
    assert!(frames.least_recently_used.is_empty());
}

#[test]
fn insert_replaces_and_remove_drops() {
    let mut set = FontAtlasSet::new();
    let k = FontAtlasKey(5, 16, FontSmoothing::NoSmoothing);
    set.insert(k, vec![]);
    set.insert(k, vec![FontAtlas { glyphs: vec![7] }]);
    assert_eq!(set.len(), 1);
    assert!(set.has_glyph(7, &k));
    assert!(!set.has_glyph(8, &k));
    set.remove(&k);
    assert_eq!(set.len(), 0);
    assert!(!set.has_glyph(7, &k));
}

#[test]
fn has_glyph_looks_in_every_atlas_of_the_font() {
    let mut set = FontAtlasSet::new();
    let k = FontAtlasKey(1, 16, FontSmoothing::AntiAliased);
    let other = FontAtlasKey(1, 17, FontSmoothing::AntiAliased);
    set.insert(k, vec![FontAtlas { glyphs: vec![1, 2] }, FontAtlas { glyphs: vec![3] }]);
    set.insert(other, vec![FontAtlas { glyphs: vec![9] }]);
    assert!(set.has_glyph(3, &k));
    assert!(!set.has_glyph(9, &k));
    assert!(set.has_glyph(9, &other));
    assert!(FontAtlas { glyphs: vec![4, 5] }.has_glyph(5));
}

#[test]
fn removed_font_assets_lose_their_atlases() {
    let mut set = FontAtlasSet::new();
    let a1 = FontAtlasKey(1, 10, FontSmoothing::AntiAliased);
    let a2 = FontAtlasKey(1, 20, FontSmoothing::AntiAliased);
    let b = FontAtlasKey(2, 10, FontSmoothing::AntiAliased);
    set.insert(a1, vec![]);
    set.insert(a2, vec![]);
    set.insert(b, vec![]);
    free_unused_font_atlases_system(
        &mut set,
        &[FontAssetEvent::Added(3), FontAssetEvent::Modified(2), FontAssetEvent::Removed(1)],
    );
    assert_eq!(set.len(), 1);
    assert!(set.contains_key(&b));
    set.retain_other_assets(2);
    assert_eq!(set.len(), 0);
}

#[test]
fn a_stale_scratch_set_does_not_keep_unused_fonts() {
    let max = MaxUnusedFontAtlasSets(0);
    let mut set = FontAtlasSet::new();
    let mut frames = Frames::new();
    let a = FontAtlasKey(1, 9, FontSmoothing::AntiAliased);
    set.insert(a, vec![]);
    frames.update(&mut set, &max, &[fonts(&[a])]);
    // the scratch set holds `a` on entry, yet `a` is no longer in use
    frames.active_fonts.push(a);
    frames.update(&mut set, &max, &[]);
    assert_eq!(set.len(), 0);
    assert!(frames.active_fonts.is_empty());
}
