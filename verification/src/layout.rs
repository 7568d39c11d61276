//! Glyph-accurate re-layout and hit-testing.
//!
//! The OCR engine's reported box positions are unreliable; only the sizes are
//! trustworthy. Final word positions are therefore recomputed: the line starts
//! at the first raw word's reported minimum corner, and each word is laid out
//! at the running offset using its measured extent, left to right. The
//! measured extents come from the font-metrics collaborator, as whole pixels.
//!
//! Hit-testing derives a word's extent from the line's shared scale and the
//! word's character count: width is scale.x times the character count, height
//! is scale.y.

use vstd::prelude::*;
use vstd::string::*;

use crate::geometry::PixelPoint;
use crate::words::{HocrWord, WordModel, word_models};

verus! {

/// A line's representative glyph scale, applied to both axes.
#[derive(Debug, Clone, Copy, PartialEq, Eq, Structural)]
pub struct Scale {
    pub x: i64,
    pub y: i64,
}

/// A measured extent of one word's laid-out text, in whole pixels.
#[derive(Debug, Clone, Copy, PartialEq, Eq, Structural)]
pub struct Measurement {
    pub width: i64,
    pub height: i64,
}

impl Measurement {
    pub open spec fn wf(self) -> bool {
        self.width >= 0 && self.height >= 0
    }

    pub fn new(width: i64, height: i64) -> (r: Self)
        ensures
            r == (Measurement { width, height }),
    {
        Self { width, height }
    }
}

/// The model of a positioned, presentable word.
pub struct PresentableWordModel {
    pub text: Seq<char>,
    pub min: PixelPoint,
    pub confidence: int,
    pub is_highlighted: bool,
}

/// A word after re-tokenization and re-layout: its (possibly merged) text,
/// its recomputed minimum corner, the minimum confidence of the raw words it
/// came from, and its highlight state, which only the hit-tester changes.
#[derive(Debug, Clone)]
pub struct PresentableWord {
    pub text: String,
    pub min: PixelPoint,
    pub confidence: u32,
    pub is_highlighted: bool,
}

impl View for PresentableWord {
    type V = PresentableWordModel;

    open spec fn view(&self) -> PresentableWordModel {
        PresentableWordModel {
            text: self.text@,
            min: self.min,
            confidence: self.confidence as int,
            is_highlighted: self.is_highlighted,
        }
    }
}

/// The sum of measured widths.
pub open spec fn sum_widths(ms: Seq<Measurement>) -> int
    decreases ms.len(),
{
    if ms.len() == 0 {
        0
    } else {
        sum_widths(ms.drop_last()) + ms.last().width
    }
}

/// The tallest measured height; zero for no measurements.
pub open spec fn max_height(ms: Seq<Measurement>) -> int
    decreases ms.len(),
{
    if ms.len() == 0 {
        0
    } else {
        let rest = max_height(ms.drop_last());
        if ms.last().height >= rest {
            ms.last().height as int
        } else {
            rest
        }
    }
}

/// A word does not count toward the line scale when its text starts with
/// ASCII punctuation.
pub open spec fn is_ascii_punct(c: char) -> bool {
    ('!' <= c && c <= '/') || (':' <= c && c <= '@') || ('[' <= c && c <= '`') || ('{' <= c && c <= '~')
}

/// The summed reported glyph heights of the non-punctuation words.
pub open spec fn sum_scales(ws: Seq<WordModel>) -> int
    decreases ws.len(),
{
    if ws.len() == 0 {
        0
    } else {
        sum_scales(ws.drop_last()) + (
            if ws.last().text.len() > 0 && is_ascii_punct(ws.last().text[0]) {
                0
            } else {
                ws.last().max.y - ws.last().min.y
            }
        )
    }
}

/// How many of the line's words count toward the scale: those whose text
/// does not start with ASCII punctuation.
pub open spec fn count_non_punct(ws: Seq<WordModel>) -> int
    decreases ws.len(),
{
    if ws.len() == 0 {
        0
    } else {
        count_non_punct(ws.drop_last()) + (
            if ws.last().text.len() > 0 && is_ascii_punct(ws.last().text[0]) {
                0int
            } else {
                1int
            }
        )
    }
}

/// The line's representative scale: the average glyph height of the
/// non-punctuation words (integer division), on both axes. A line made of
/// punctuation alone has no glyph height to average and gets scale zero.
pub open spec fn spec_line_scale(ws: Seq<WordModel>) -> Scale
    recommends
        ws.len() > 0,
{
    if count_non_punct(ws) == 0 {
        Scale { x: 0, y: 0 }
    } else {
        let s = sum_scales(ws) / count_non_punct(ws);
        Scale { x: s as i64, y: s as i64 }
    }
}

pub proof fn lemma_sum_widths_nonneg(ms: Seq<Measurement>)
    requires
        forall|k: int| 0 <= k < ms.len() ==> (#[trigger] ms[k]).wf(),
    ensures
        sum_widths(ms) >= 0,
    decreases ms.len(),
{
    if ms.len() > 0 {
        assert(forall|k: int| 0 <= k < ms.drop_last().len() ==> (#[trigger] ms.drop_last()[k]).wf());
        lemma_sum_widths_nonneg(ms.drop_last());
        assert(ms.last().wf());
    }
}

/// Prefix sums of non-negative widths never decrease.
pub proof fn lemma_sum_widths_prefix(ms: Seq<Measurement>, a: int, b: int)
    requires
        forall|k: int| 0 <= k < ms.len() ==> (#[trigger] ms[k]).wf(),
        0 <= a <= b <= ms.len(),
    ensures
        sum_widths(ms.take(a)) <= sum_widths(ms.take(b)),
    decreases b - a,
{
    if a < b {
        lemma_sum_widths_prefix(ms, a + 1, b);
        assert(ms.take(a + 1).drop_last() =~= ms.take(a));
        assert(ms.take(a + 1).last() == ms[a]);
        assert(ms[a].wf());
    }
}

pub proof fn lemma_sum_scales_nonneg(ws: Seq<WordModel>)
    requires
        forall|k: int| 0 <= k < ws.len() ==> (#[trigger] ws[k]).wf(),
    ensures
        sum_scales(ws) >= 0,
    decreases ws.len(),
{
    if ws.len() > 0 {
        assert(forall|k: int| 0 <= k < ws.drop_last().len() ==> (#[trigger] ws.drop_last()[k]).wf());
        lemma_sum_scales_nonneg(ws.drop_last());
        assert(ws.last().wf());
    }
}

impl PresentableWord {
    pub fn new(text: String, min: PixelPoint, confidence: u32) -> (r: Self)
        ensures
            r@ == (PresentableWordModel { text: text@, min, confidence: confidence as int, is_highlighted: false }),
    {
        Self { text, min, confidence, is_highlighted: false }
    }

    /// An owned copy whose model is the same.
    pub fn duplicate(&self) -> (r: Self)
        ensures
            r@ == self@,
    {
        Self {
            text: self.text.clone(),
            min: self.min,
            confidence: self.confidence,
            is_highlighted: self.is_highlighted,
        }
    }

    pub fn get_min(&self) -> (r: PixelPoint)
        ensures
            r == self@.min,
    {
        self.min
    }

    pub fn get_text(&self) -> (r: &String)
        ensures
            r@ == self@.text,
    {
        &self.text
    }

    pub fn get_confidence(&self) -> (r: u32)
        ensures
            r as int == self@.confidence,
    {
        self.confidence
    }

    pub fn is_highlighted(&self) -> (r: bool)
        ensures
            r == self@.is_highlighted,
    {
        self.is_highlighted
    }

    /// Sets the highlight state and reports whether it changed, so a caller
    /// can skip a redraw when nothing changed.
    pub fn set_highlighted(&mut self, is_highlighted: bool) -> (changed: bool)
        ensures
            final(self)@ == (PresentableWordModel { is_highlighted, ..old(self)@ }),
            changed == (old(self)@.is_highlighted != is_highlighted),
    {
        let was_highlighted = self.is_highlighted;
        self.is_highlighted = is_highlighted;
        was_highlighted != is_highlighted
    }

    /// How the renderer should emphasize this word: a highlight wins, low
    /// confidence warns, anything else renders plainly.
    pub fn emphasis(&self) -> (r: WordEmphasis)
        ensures
            r == spec_emphasis(self@),
    {
        if self.is_highlighted {
            WordEmphasis::Highlighted
        } else if self.confidence < LOW_CONFIDENCE {
            WordEmphasis::LowConfidence
        } else {
            WordEmphasis::Normal
        }
    }

    /// Whether the cursor falls inside this word's derived extent.
    pub fn is_within_bounds(&self, position: &PixelPoint, scale: Scale) -> (r: bool)
        requires
            spec_hit_fits(self@, scale),
        ensures
            r == spec_within(self@, *position, scale),
    {
        let chars = self.text.as_str().unicode_len() as i64;
        position.x > self.min.x && position.x <= self.min.x + scale.x * chars
            && position.y > self.min.y && position.y <= self.min.y + scale.y
    }
}

/// Words below this confidence are marked for warning colours.
pub const LOW_CONFIDENCE: u32 = 90;

/// A word's render emphasis.
#[derive(Debug, Clone, Copy, PartialEq, Eq, Structural)]
pub enum WordEmphasis {
    Highlighted,
    LowConfidence,
    Normal,
}

pub open spec fn spec_emphasis(w: PresentableWordModel) -> WordEmphasis {
    if w.is_highlighted {
        WordEmphasis::Highlighted
    } else if w.confidence < LOW_CONFIDENCE {
        WordEmphasis::LowConfidence
    } else {
        WordEmphasis::Normal
    }
}

/// The hit-test rule: strictly right of and below the min corner, and within
/// scale.x per character horizontally and one scale.y vertically.
pub open spec fn spec_within(w: PresentableWordModel, pos: PixelPoint, scale: Scale) -> bool {
    pos.x > w.min.x && pos.x <= w.min.x + scale.x * w.text.len()
    && pos.y > w.min.y && pos.y <= w.min.y + scale.y
}

/// The machine bounds under which the hit-test arithmetic cannot overflow.
pub open spec fn spec_hit_fits(w: PresentableWordModel, scale: Scale) -> bool {
    0 <= scale.x && 0 <= scale.y
    && w.text.len() <= i64::MAX
    && scale.x * w.text.len() <= i64::MAX
    && w.min.x + scale.x * w.text.len() <= i64::MAX
    && w.min.y + scale.y <= i64::MAX
}

/// Hit-testing is reflexive on box corners: a cursor one pixel inside the
/// minimum corner (the smallest inward offset whole pixels allow) lies within
/// the word; a cursor one pixel outside the derived maximum corner does not.
pub proof fn lemma_hit_test_corners(w: PresentableWordModel, scale: Scale, inward: PixelPoint, outward: PixelPoint)
    requires
        scale.x >= 1,
        scale.y >= 1,
        w.text.len() >= 1,
        inward.x == w.min.x + 1,
        inward.y == w.min.y + 1,
        outward.x == w.min.x + scale.x * w.text.len() + 1,
        outward.y == w.min.y + scale.y + 1,
    ensures
        spec_within(w, inward, scale),
        !spec_within(w, outward, scale),
{
    assert(scale.x * w.text.len() >= 1) by (nonlinear_arith)
        requires scale.x >= 1 && w.text.len() >= 1;
}

/// One recognized line after re-layout: its words in reading order, the
/// cached combined box, and the representative scale. The box and the word
/// offsets are derived by the re-layout algorithm, never set independently.
#[derive(Debug)]
pub struct PresentableLine {
    words: Vec<PresentableWord>,
    min: PixelPoint,
    max: PixelPoint,
    scale: Scale,
}

impl PresentableLine {
    /// Whether hit-testing this line stays within machine arithmetic.
    pub open spec fn hit_ready(self) -> bool {
        forall|k: int| 0 <= k < self.spec_words().len()
            ==> spec_hit_fits(#[trigger] self.spec_words()[k], self.spec_scale())
    }

    pub closed spec fn spec_words(self) -> Seq<PresentableWordModel> {
        self.words@.map_values(|w: PresentableWord| w@)
    }

    pub closed spec fn spec_min(self) -> PixelPoint {
        self.min
    }

    pub closed spec fn spec_max(self) -> PixelPoint {
        self.max
    }

    pub closed spec fn spec_scale(self) -> Scale {
        self.scale
    }

    pub fn get_words(&self) -> (r: &Vec<PresentableWord>)
        ensures
            r@.map_values(|w: PresentableWord| w@) == self.spec_words(),
    {
        &self.words
    }

    pub fn get_min(&self) -> (r: PixelPoint)
        ensures
            r == self.spec_min(),
    {
        self.min
    }

    pub fn get_max(&self) -> (r: PixelPoint)
        ensures
            r == self.spec_max(),
    {
        self.max
    }

    pub fn get_scale(&self) -> (r: Scale)
        ensures
            r == self.spec_scale(),
    {
        self.scale
    }

    /// The line's representative scale: the average glyph height of the
    /// non-punctuation words; zero when the line is punctuation alone.
    pub fn compute_line_scale(hocr_words: &Vec<HocrWord>) -> (r: Scale)
        requires
            hocr_words@.len() > 0,
            hocr_words@.len() <= i64::MAX,
            forall|k: int| 0 <= k < hocr_words@.len() ==> (#[trigger] hocr_words@[k]).wf(),
            sum_scales(word_models(hocr_words@)) <= i64::MAX,
        ensures
            r == spec_line_scale(word_models(hocr_words@)),
    {
        let ghost ws = word_models(hocr_words@);
        let mut total: i64 = 0;
        let mut counted: usize = 0;
        let mut k: usize = 0;
        proof {
            assert(ws.take(0) =~= Seq::<WordModel>::empty());
        }
        while k < hocr_words.len()
            invariant
                ws == word_models(hocr_words@),
                forall|m: int| 0 <= m < ws.len() ==> (#[trigger] ws[m]).wf(),
                sum_scales(ws) <= i64::MAX,
                k <= ws.len(),
                total == sum_scales(ws.take(k as int)),
                total >= 0,
                counted == count_non_punct(ws.take(k as int)),
                counted <= k,
            decreases ws.len() - k,
        {
            proof {
                assert(ws.take(k + 1).drop_last() =~= ws.take(k as int));
                assert(ws.take(k + 1).last() == ws[k as int]);
                lemma_sum_scales_rest(ws, k + 1);
            }
            let w = &hocr_words[k];
            let first = w.text.as_str().get_char(0);
            if !is_punct_char(first) {
                total = total + (w.max.y - w.min.y);
                counted = counted + 1;
            }
            k += 1;
        }
        proof {
            assert(ws.take(ws.len() as int) =~= ws);
        }
        if counted == 0 {
            Scale { x: 0, y: 0 }
        } else {
            let s = total / (counted as i64);
            Scale { x: s, y: s }
        }
    }

    /// Lays the line out left to right from the first raw word's reported
    /// minimum corner: each word's new minimum corner sits at the running
    /// offset, which advances by that word's measured width; the line's
    /// maximum corner bounds the full accumulated text. X offsets never
    /// decrease across the line, whatever the engine's own coordinates said.
    pub fn from_hocr(hocr_words: &Vec<HocrWord>, measurements: &Vec<Measurement>) -> (r: Self)
        requires
            hocr_words@.len() > 0,
            hocr_words@.len() <= i64::MAX,
            measurements@.len() == hocr_words@.len(),
            forall|k: int| 0 <= k < hocr_words@.len() ==> (#[trigger] hocr_words@[k]).wf(),
            forall|k: int| 0 <= k < measurements@.len() ==> (#[trigger] measurements@[k]).wf(),
            sum_scales(word_models(hocr_words@)) <= i64::MAX,
            hocr_words@[0]@.min.x + sum_widths(measurements@) <= i64::MAX,
            hocr_words@[0]@.min.y + max_height(measurements@) <= i64::MAX,
        ensures
            // A line always contains at least one word.
            r.spec_words().len() > 0,
            r.spec_words().len() == hocr_words@.len(),
            forall|k: int| 0 <= k < hocr_words@.len() ==> (#[trigger] r.spec_words()[k]).text == hocr_words@[k]@.text,
            forall|k: int| 0 <= k < hocr_words@.len() ==> (#[trigger] r.spec_words()[k]).confidence == hocr_words@[k]@.confidence,
            forall|k: int| 0 <= k < hocr_words@.len() ==> (#[trigger] r.spec_words()[k]).is_highlighted == false,
            forall|k: int| 0 <= k < hocr_words@.len() ==> (#[trigger] r.spec_words()[k]).min.x
                == hocr_words@[0]@.min.x + sum_widths(measurements@.take(k)),
            forall|k: int| 0 <= k < hocr_words@.len() ==> (#[trigger] r.spec_words()[k]).min.y == hocr_words@[0]@.min.y,
            r.spec_min() == hocr_words@[0]@.min,
            r.spec_max().x == hocr_words@[0]@.min.x + sum_widths(measurements@),
            r.spec_max().y == hocr_words@[0]@.min.y + max_height(measurements@),
            r.spec_scale() == spec_line_scale(word_models(hocr_words@)),
            // Left-to-right layout: x offsets never decrease across the line.
            forall|a: int, b: int| 0 <= a <= b < hocr_words@.len()
                ==> r.spec_words()[a].min.x <= r.spec_words()[b].min.x,
    {
        let ghost ws = word_models(hocr_words@);
        let ghost ms = measurements@;
        let scale = Self::compute_line_scale(hocr_words);
        let first_min = hocr_words[0].get_min();
        let mut out_words: Vec<PresentableWord> = Vec::new();
        let mut offx: i64 = first_min.x;
        let mut tallest: i64 = 0;
        let mut k: usize = 0;
        proof {
            assert(ms.take(0) =~= Seq::<Measurement>::empty());
        }
        while k < hocr_words.len()
            invariant
                ws == word_models(hocr_words@),
                ms == measurements@,
                forall|m: int| 0 <= m < ws.len() ==> (#[trigger] ws[m]).wf(),
                forall|m: int| 0 <= m < ms.len() ==> (#[trigger] ms[m]).wf(),
                ms.len() == ws.len(),
                ws.len() > 0,
                first_min == ws[0].min,
                ws[0].min.x + sum_widths(ms) <= i64::MAX,
                ws[0].min.y + max_height(ms) <= i64::MAX,
                k <= ws.len(),
                offx == first_min.x + sum_widths(ms.take(k as int)),
                tallest == max_height(ms.take(k as int)),
                out_words@.len() == k,
                forall|m: int| 0 <= m < k ==> (#[trigger] out_words@[m])@.text == ws[m].text,
                forall|m: int| 0 <= m < k ==> (#[trigger] out_words@[m])@.confidence == ws[m].confidence,
                forall|m: int| 0 <= m < k ==> (#[trigger] out_words@[m])@.is_highlighted == false,
                forall|m: int| 0 <= m < k ==> (#[trigger] out_words@[m])@.min.x == ws[0].min.x + sum_widths(ms.take(m)),
                forall|m: int| 0 <= m < k ==> (#[trigger] out_words@[m])@.min.y == ws[0].min.y,
            decreases ws.len() - k,
        {
            proof {
                assert(ms.take(k + 1).drop_last() =~= ms.take(k as int));
                assert(ms.take(k + 1).last() == ms[k as int]);
                lemma_sum_widths_prefix(ms, k as int, k + 1);
                lemma_sum_widths_prefix(ms, k + 1, ms.len() as int);
                assert(ms.take(ms.len() as int) =~= ms);
                lemma_max_height_prefix(ms, k + 1);
            }
            let w = &hocr_words[k];
            let word = PresentableWord::new(w.text.clone(), PixelPoint::new(offx, first_min.y), w.confidence);
            out_words.push(word);
            offx = offx + measurements[k].width;
            let h = measurements[k].height;
            if h > tallest {
                tallest = h;
            }
            k += 1;
        }
        proof {
            assert(ms.take(ms.len() as int) =~= ms);
            lemma_sum_widths_nonneg(ms);
        }
        let r = Self {
            words: out_words,
            min: first_min,
            max: PixelPoint::new(offx, first_min.y + tallest),
            scale,
        };
        proof {
            assert forall|a: int, b: int| 0 <= a <= b < ws.len()
                implies r.spec_words()[a].min.x <= r.spec_words()[b].min.x by {
                lemma_sum_widths_prefix(ms, a, b);
            }
        }
        r
    }

    /// Updates every word's highlight state from the cursor position and
    /// reports whether any state changed, so the caller can skip a redraw
    /// when nothing did.
    pub fn handle_cursor(&mut self, cursor_position: &PixelPoint) -> (changed: bool)
        requires
            old(self).hit_ready(),
        ensures
            spec_cursor_applied(*old(self), *final(self), *cursor_position),
            final(self).hit_ready(),
            changed == spec_cursor_changes(*old(self), *cursor_position),
    {
        let scale = self.scale;
        let mut new_words: Vec<PresentableWord> = Vec::new();
        let mut changed = false;
        let mut k: usize = 0;
        let ghost w0 = self.spec_words();
        while k < self.words.len()
            invariant
                w0 == self.spec_words(),
                old(self) == self,
                old(self).hit_ready(),
                scale == self.scale,
                k <= w0.len(),
                w0.len() == self.words@.len(),
                new_words@.len() == k,
                forall|m: int| 0 <= m < k ==> (#[trigger] new_words@[m])@ == (PresentableWordModel {
                    is_highlighted: spec_within(w0[m], *cursor_position, scale),
                    ..w0[m]
                }),
                changed == exists|m: int| 0 <= m < k
                    && (#[trigger] w0[m]).is_highlighted != spec_within(w0[m], *cursor_position, scale),
            decreases w0.len() - k,
        {
            let mut word = self.words[k].duplicate();
            proof {
                assert(word@ == w0[k as int]);
                assert(spec_hit_fits(self.spec_words()[k as int], self.spec_scale()));
            }
            let within = word.is_within_bounds(cursor_position, scale);
            let word_changed = word.set_highlighted(within);
            new_words.push(word);
            proof {
                if word_changed {
                    assert(w0[k as int].is_highlighted != spec_within(w0[k as int], *cursor_position, scale));
                }
            }
            changed = changed || word_changed;
            k += 1;
        }
        self.words = new_words;
        changed
    }
}

/// What one cursor move does to a line: every word's highlight state becomes
/// whether the cursor falls inside it; nothing else changes.
pub open spec fn spec_cursor_applied(before: PresentableLine, after: PresentableLine, cursor: PixelPoint) -> bool {
    after.spec_words().len() == before.spec_words().len()
    && (forall|k: int| 0 <= k < before.spec_words().len()
        ==> (#[trigger] after.spec_words()[k]) == (PresentableWordModel {
            is_highlighted: spec_within(before.spec_words()[k], cursor, before.spec_scale()),
            ..before.spec_words()[k]
        }))
    && after.spec_min() == before.spec_min()
    && after.spec_max() == before.spec_max()
    && after.spec_scale() == before.spec_scale()
}

/// Whether a cursor move changes any of the line's highlight states.
pub open spec fn spec_cursor_changes(line: PresentableLine, cursor: PixelPoint) -> bool {
    exists|k: int| 0 <= k < line.spec_words().len()
        && (#[trigger] line.spec_words()[k]).is_highlighted
            != spec_within(line.spec_words()[k], cursor, line.spec_scale())
}

/// Whether a character is ASCII punctuation.
pub fn is_punct_char(c: char) -> (r: bool)
    ensures
        r == is_ascii_punct(c),
{
    ('!' <= c && c <= '/') || (':' <= c && c <= '@') || ('[' <= c && c <= '`') || ('{' <= c && c <= '~')
}

/// Appending measurements never lowers the running maximum height.
proof fn lemma_max_height_prefix(ms: Seq<Measurement>, k: int)
    requires
        0 <= k <= ms.len(),
    ensures
        max_height(ms.take(k)) <= max_height(ms),
    decreases ms.len() - k,
{
    if k < ms.len() {
        lemma_max_height_prefix(ms, k + 1);
        assert(ms.take(k + 1).drop_last() =~= ms.take(k));
    } else {
        assert(ms.take(k) =~= ms);
    }
}

/// Each word's summed scale contribution stays within the total.
proof fn lemma_sum_scales_rest(ws: Seq<WordModel>, k: int)
    requires
        0 <= k <= ws.len(),
        forall|m: int| 0 <= m < ws.len() ==> (#[trigger] ws[m]).wf(),
    ensures
        sum_scales(ws.take(k)) <= sum_scales(ws),
        sum_scales(ws.take(k)) >= 0,
    decreases ws.len() - k,
{
    assert(forall|m: int| 0 <= m < ws.take(k).len() ==> (#[trigger] ws.take(k)[m]).wf());
    lemma_sum_scales_nonneg(ws.take(k));
    if k < ws.len() {
        lemma_sum_scales_rest(ws, k + 1);
        assert(ws.take(k + 1).drop_last() =~= ws.take(k));
        assert(ws.take(k + 1).last() == ws[k]);
        assert(ws[k].wf());
    } else {
        assert(ws.take(k) =~= ws);
    }
}

} // verus!
